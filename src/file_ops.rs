//! Flat and tree listings of a directory, from what was read of it to the
//! lines that show it.
use crate::formatter::{
    connector, format_tree_prefix, lemma_prefix_connector, lemma_prefix_width, tree_prefix,
};
use crate::paint::{
    Hue, bold_code, hue_code, lemma_strip_append, lemma_strip_plain, lemma_strip_styled, no_escape,
    paint, paint_bold, plain_or_painted, state_after, strip_ansi,
};
use crate::timestamp::{
    decimal, decimal_string, format_system_time, lemma_no_escape_join, lemma_pad_digits,
    lemma_timestamp_plain, pad_left, pad_string, timestamp_text,
};
use vstd::prelude::*;
use vstd::string::StringExecFns;

verus! {

/// What the listing reads of an entry's metadata.
#[derive(Clone, Copy, Debug, PartialEq, Eq, Structural)]
pub struct Metadata {
    pub is_dir: bool,
    pub size: u64,
    /// Whole seconds since the Unix epoch; `None` before the epoch.
    pub modified: Option<u64>,
}

/// One entry of a directory.
#[derive(Debug)]
pub struct EntryInfo {
    pub name: String,
    /// Whether the entry's path leads to a directory.
    pub is_dir: bool,
    /// The entry's metadata, or why it could not be read.
    pub metadata: Result<Metadata, String>,
}

/// What reading a directory gave.
#[derive(Debug)]
pub enum DirListing {
    Missing,
    NotADirectory,
    /// The directory could not be read, for the given cause.
    Unreadable(String),
    /// Each entry, or why it could not be read, in the order of the
    /// directory.
    Entries(Vec<Result<EntryInfo, String>>),
}

/// A line for standard output or for standard error.
#[derive(Clone, Debug)]
pub enum Line {
    Stdout(String),
    Stderr(String),
}

pub open spec fn error_label() -> Seq<char> {
    "Error:"@
}

/// `t` is the labelled error line of `msg`.
pub open spec fn error_shown(t: Seq<char>, msg: Seq<char>) -> bool {
    exists|lab: Seq<char>|
        t == lab + seq![' '] + msg && plain_or_painted(lab, error_label(), bold_code(Hue::Red))
}

pub open spec fn missing_message(path: Seq<char>) -> Seq<char> {
    "Path '"@ + path + "' does not exist."@
}

pub open spec fn not_a_directory_message(path: Seq<char>) -> Seq<char> {
    "Path '"@ + path + "' is not a directory."@
}

pub open spec fn unreadable_message(path: Seq<char>, cause: Seq<char>) -> Seq<char> {
    "Failed to read directory '"@ + path + "': "@ + cause
}

pub open spec fn entry_failed_message(cause: Seq<char>) -> Seq<char> {
    "Failed to read entry: "@ + cause
}

pub open spec fn metadata_failed_message(name: Seq<char>, cause: Seq<char>) -> Seq<char> {
    "Failed to get metadata for "@ + name + ": "@ + cause
}

/// The style of an entry's name: bold blue for a directory, green otherwise.
pub open spec fn name_params(is_dir: bool) -> Seq<char> {
    if is_dir {
        bold_code(Hue::Blue)
    } else {
        hue_code(Hue::Green)
    }
}

/// `t` shows `head` in whatever styles, then `name` in the style of its kind.
pub open spec fn entry_shown(t: Seq<char>, head: Seq<char>, name: Seq<char>, is_dir: bool) -> bool {
    &&& exists|p: Seq<char>, nm: Seq<char>|
        {
            &&& t == p + nm
            &&& strip_ansi(p) == head
            &&& !state_after(p, false)
            &&& no_escape(name) ==> plain_or_painted(nm, name, name_params(is_dir))
        }
    &&& no_escape(name) ==> strip_ansi(t) == head + name
}

/// The metadata columns: a kind glyph and nine dashes, the size right-aligned
/// in ten characters, the modification time, each followed by a blank.
pub open spec fn columns_text(is_dir: bool, size: u64, modified: Option<u64>) -> Seq<char> {
    seq![if is_dir { 'd' } else { '-' }] + "---------"@ + seq![' '] + pad_left(
        decimal(size as nat),
        10,
        ' ',
    ) + seq![' '] + timestamp_text(modified) + seq![' ']
}

/// The labelled error line of a message.
pub fn error_line(msg: &str) -> (r: String)
    ensures
        error_shown(r@, msg@),
{
    let mut r = paint_bold("Error:", Hue::Red);
    proof {
        reveal_strlit("Error:");
        reveal_strlit(" ");
        assert(no_escape(error_label()));
    }
    let ghost lab = r@;
    r.append(" ");
    r.append(msg);
    assert(r@ == lab + seq![' '] + msg@);
    r
}

pub fn missing_message_text(path: &str) -> (r: String)
    ensures
        r@ == missing_message(path@),
{
    let mut r = String::from_str("Path '");
    r.append(path);
    r.append("' does not exist.");
    r
}

pub fn not_a_directory_message_text(path: &str) -> (r: String)
    ensures
        r@ == not_a_directory_message(path@),
{
    let mut r = String::from_str("Path '");
    r.append(path);
    r.append("' is not a directory.");
    r
}

pub fn unreadable_message_text(path: &str, cause: &str) -> (r: String)
    ensures
        r@ == unreadable_message(path@, cause@),
{
    let mut r = String::from_str("Failed to read directory '");
    r.append(path);
    r.append("': ");
    r.append(cause);
    r
}

pub fn entry_failed_message_text(cause: &str) -> (r: String)
    ensures
        r@ == entry_failed_message(cause@),
{
    let mut r = String::from_str("Failed to read entry: ");
    r.append(cause);
    r
}

pub fn metadata_failed_message_text(name: &str, cause: &str) -> (r: String)
    ensures
        r@ == metadata_failed_message(name@, cause@),
{
    let mut r = String::from_str("Failed to get metadata for ");
    r.append(name);
    r.append(": ");
    r.append(cause);
    r
}

/// An entry's name in the style of its kind.
pub fn name_text(name: &str, is_dir: bool) -> (r: String)
    ensures
        no_escape(name@) ==> plain_or_painted(r@, name@, name_params(is_dir)),
{
    if is_dir {
        paint_bold(name, Hue::Blue)
    } else {
        paint(name, Hue::Green)
    }
}

proof fn lemma_columns_plain(is_dir: bool, size: u64, modified: Option<u64>)
    ensures
        no_escape(columns_text(is_dir, size, modified)),
{
    reveal_strlit("---------");
    let kind = seq![if is_dir { 'd' } else { '-' }];
    let pad = pad_left(decimal(size as nat), 10, ' ');
    let ts = timestamp_text(modified);
    lemma_timestamp_plain(modified);
    lemma_pad_digits(size as nat, 10);
    assert(no_escape("---------"@));
    lemma_no_escape_join(kind, "---------"@);
    lemma_no_escape_join(kind + "---------"@, seq![' ']);
    lemma_no_escape_join(kind + "---------"@ + seq![' '], pad);
    lemma_no_escape_join(kind + "---------"@ + seq![' '] + pad, seq![' ']);
    lemma_no_escape_join(kind + "---------"@ + seq![' '] + pad + seq![' '], ts);
    lemma_no_escape_join(kind + "---------"@ + seq![' '] + pad + seq![' '] + ts, seq![' ']);
}

/// The metadata columns of an entry.
pub fn columns(is_dir: bool, size: u64, modified: Option<u64>) -> (r: String)
    ensures
        r@ == columns_text(is_dir, size, modified),
{
    proof {
        reveal_strlit(" ");
        reveal_strlit("d");
        reveal_strlit("-");
    }
    let mut r = if is_dir {
        String::from_str("d")
    } else {
        String::from_str("-")
    };
    r.append("---------");
    r.append(" ");
    let digits = decimal_string(size);
    r.append(pad_string(digits.as_str(), 10, " ").as_str());
    r.append(" ");
    r.append(format_system_time(modified).as_str());
    r.append(" ");
    r
}

/// The line of a flat listing for one item of a directory.
pub open spec fn flat_line_ok(item: Result<EntryInfo, String>, long_format: bool, l: Line) -> bool {
    match item {
        Ok(e) => if long_format {
            match e.metadata {
                Ok(m) => l matches Line::Stdout(t) && entry_shown(
                    t@,
                    columns_text(m.is_dir, m.size, m.modified),
                    e.name@,
                    m.is_dir,
                ),
                Err(c) => l matches Line::Stderr(t) && error_shown(
                    t@,
                    metadata_failed_message(e.name@, c@),
                ),
            }
        } else {
            l matches Line::Stdout(t) && entry_shown(t@, Seq::empty(), e.name@, e.is_dir)
        },
        Err(c) => l matches Line::Stderr(t) && error_shown(t@, entry_failed_message(c@)),
    }
}

/// The error line for a directory that cannot be listed, if it cannot.
pub open spec fn listing_error_ok(path: Seq<char>, listing: DirListing, t: Seq<char>) -> bool {
    match listing {
        DirListing::Missing => error_shown(t, missing_message(path)),
        DirListing::NotADirectory => error_shown(t, not_a_directory_message(path)),
        DirListing::Unreadable(c) => error_shown(t, unreadable_message(path, c@)),
        DirListing::Entries(_) => false,
    }
}

/// `head` followed by the styled name of an entry.
fn with_name(head: String, name: &str, is_dir: bool) -> (r: String)
    requires
        state_after(head@, false) == false,
    ensures
        entry_shown(r@, strip_ansi(head@), name@, is_dir),
{
    let nm = name_text(name, is_dir);
    let ghost h = head@;
    let mut r = head;
    r.append(nm.as_str());
    proof {
        if no_escape(name@) {
            lemma_strip_styled(nm@, name@, if is_dir { Hue::Blue } else { Hue::Green }, is_dir);
            lemma_strip_append(h, nm@, false);
        }
        assert(r@ == h + nm@);
    }
    r
}

/// The error line, if `listing` says the directory cannot be listed.
fn listing_error(path: &str, listing: &DirListing) -> (r: Option<String>)
    ensures
        listing is Entries <==> r is None,
        r matches Some(t) ==> listing_error_ok(path@, *listing, t@),
{
    match listing {
        DirListing::Missing => Some(error_line(missing_message_text(path).as_str())),
        DirListing::NotADirectory => Some(error_line(not_a_directory_message_text(path).as_str())),
        DirListing::Unreadable(c) => Some(
            error_line(unreadable_message_text(path, c.as_str()).as_str()),
        ),
        DirListing::Entries(_) => None,
    }
}

/// The line of a flat listing for one item of a directory.
pub fn flat_entry_line(item: &Result<EntryInfo, String>, long_format: bool) -> (l: Line)
    ensures
        flat_line_ok(*item, long_format, l),
{
    match item {
        Ok(e) => {
            if long_format {
                match &e.metadata {
                    Ok(m) => {
                        let head = columns(m.is_dir, m.size, m.modified);
                        proof {
                            lemma_columns_plain(m.is_dir, m.size, m.modified);
                            lemma_strip_plain(head@);
                        }
                        Line::Stdout(with_name(head, e.name.as_str(), m.is_dir))
                    },
                    Err(c) => Line::Stderr(
                        error_line(
                            metadata_failed_message_text(e.name.as_str(), c.as_str()).as_str(),
                        ),
                    ),
                }
            } else {
                let head = String::new();
                proof {
                    lemma_strip_plain(head@);
                }
                Line::Stdout(with_name(head, e.name.as_str(), e.is_dir))
            }
        },
        Err(c) => Line::Stderr(error_line(entry_failed_message_text(c.as_str()).as_str())),
    }
}

/// A flat listing of a directory: the error line when it cannot be listed,
/// else one line per item, in the directory's order.
pub fn list_directory(path: &str, listing: &DirListing, long_format: bool) -> (r: Result<
    Vec<Line>,
    String,
>)
    ensures
        match *listing {
            DirListing::Entries(items) => r matches Ok(lines) && lines@.len() == items@.len() && (
            forall|i: int|
                0 <= i < items@.len() ==> #[trigger] flat_line_ok(
                    items@[i],
                    long_format,
                    lines@[i],
                )),
            _ => r matches Err(t) && listing_error_ok(path@, *listing, t@),
        },
{
    match listing {
        DirListing::Entries(items) => {
            let mut lines: Vec<Line> = Vec::new();
            let mut i: usize = 0;
            while i < items.len()
                invariant
                    i <= items@.len(),
                    lines@.len() == i,
                    forall|j: int|
                        0 <= j < i ==> #[trigger] flat_line_ok(items@[j], long_format, lines@[j]),
                decreases items@.len() - i,
            {
                let l = flat_entry_line(&items[i], long_format);
                lines.push(l);
                i = i + 1;
            }
            Ok(lines)
        },
        _ => {
            let t = listing_error(path, listing);
            Err(t.unwrap())
        },
    }
}

/// One entry of a tree level: its line, whether it is the last shown sibling,
/// which item of the directory it is, and, when the walk goes into it, the
/// ancestor flags for its own entries.
#[derive(Debug)]
pub struct TreeRow {
    pub line: Line,
    pub is_last: bool,
    pub entry: usize,
    pub descend: Option<Vec<bool>>,
}

/// The positions of the items that were read, in order.
pub open spec fn survivors(items: Seq<Result<EntryInfo, String>>) -> Seq<int>
    decreases items.len(),
{
    if items.len() == 0 {
        Seq::empty()
    } else if items.last() is Ok {
        survivors(items.drop_last()).push(items.len() - 1)
    } else {
        survivors(items.drop_last())
    }
}

/// The row of a tree listing for an entry that was read.
pub open spec fn tree_row_ok(
    e: EntryInfo,
    is_last: bool,
    ancestors: Seq<bool>,
    depth: nat,
    max_depth: nat,
    long_format: bool,
    row: TreeRow,
) -> bool {
    let prefix = tree_prefix(is_last, ancestors);
    &&& row.is_last == is_last
    &&& (row.descend is Some <==> (e.is_dir && depth < max_depth))
    &&& (row.descend matches Some(a) ==> a@ == ancestors.push(is_last))
    &&& if long_format {
        match e.metadata {
            Ok(m) => row.line matches Line::Stdout(t) && entry_shown(
                t@,
                prefix + columns_text(e.is_dir, m.size, m.modified),
                e.name@,
                e.is_dir,
            ),
            Err(c) => row.line matches Line::Stderr(t) && error_shown(
                t@,
                metadata_failed_message(e.name@, c@),
            ),
        }
    } else {
        row.line matches Line::Stdout(t) && entry_shown(t@, prefix, e.name@, e.is_dir)
    }
}

proof fn lemma_survivors(items: Seq<Result<EntryInfo, String>>)
    ensures
        forall|i: int|
            0 <= i < survivors(items).len() ==> 0 <= #[trigger] survivors(items)[i] < items.len()
                && items[survivors(items)[i]] is Ok,
        forall|i: int, j: int|
            0 <= i < j < survivors(items).len() ==> #[trigger] survivors(items)[i]
                < #[trigger] survivors(items)[j],
        survivors(items).len() == 0 <==> forall|j: int| 0 <= j < items.len() ==> items[j] is Err,
        survivors(items).len() > 0 ==> forall|j: int|
            survivors(items).last() < j < items.len() ==> items[j] is Err,
    decreases items.len(),
{
    if items.len() > 0 {
        let front = items.drop_last();
        lemma_survivors(front);
        assert forall|j: int| 0 <= j < front.len() implies front[j] == items[j] by {}
        if survivors(items).len() == 0 {
            assert forall|j: int| 0 <= j < items.len() implies items[j] is Err by {
                if j < front.len() {
                    assert(front[j] == items[j]);
                }
            }
        }
    }
}

/// One row of a tree level.
fn tree_row(
    e: &EntryInfo,
    is_last: bool,
    ancestors: &Vec<bool>,
    long_format: bool,
    max_depth: usize,
    current_depth: usize,
    entry: usize,
) -> (row: TreeRow)
    ensures
        row.entry == entry,
        tree_row_ok(
            *e,
            is_last,
            ancestors@,
            current_depth as nat,
            max_depth as nat,
            long_format,
            row,
        ),
{
    let prefix = format_tree_prefix(is_last, ancestors.as_slice(), current_depth);
    let line = if long_format {
        match &e.metadata {
            Ok(m) => {
                let cols = columns(e.is_dir, m.size, m.modified);
                let ghost p = prefix@;
                let mut head = prefix;
                head.append(cols.as_str());
                proof {
                    lemma_columns_plain(e.is_dir, m.size, m.modified);
                    lemma_strip_plain(cols@);
                    lemma_strip_append(p, cols@, false);
                }
                Line::Stdout(with_name(head, e.name.as_str(), e.is_dir))
            },
            Err(c) => Line::Stderr(
                error_line(metadata_failed_message_text(e.name.as_str(), c.as_str()).as_str()),
            ),
        }
    } else {
        Line::Stdout(with_name(prefix, e.name.as_str(), e.is_dir))
    };
    let descend = if e.is_dir && current_depth < max_depth {
        let mut a = ancestors.clone();
        a.push(is_last);
        Some(a)
    } else {
        None
    };
    TreeRow { line, is_last, entry, descend }
}

/// The text of a line, whichever stream it is for.
pub open spec fn line_text(l: Line) -> Seq<char> {
    match l {
        Line::Stdout(t) => t@,
        Line::Stderr(t) => t@,
    }
}

/// A shown entry starts, as a terminal shows it, with its head.
proof fn lemma_shown_head(t: Seq<char>, head: Seq<char>, name: Seq<char>, is_dir: bool)
    requires
        entry_shown(t, head, name, is_dir),
    ensures
        strip_ansi(t).len() >= head.len(),
        strip_ansi(t).subrange(0, head.len() as int) == head,
{
    let (p, nm) = choose|p: Seq<char>, nm: Seq<char>|
        {
            &&& t == p + nm
            &&& strip_ansi(p) == head
            &&& !state_after(p, false)
            &&& no_escape(name) ==> plain_or_painted(nm, name, name_params(is_dir))
        };
    lemma_strip_append(p, nm, false);
    assert(strip_ansi(t).subrange(0, head.len() as int) =~= head);
}

/// The line of a row shows the row's connector right after the ancestors'
/// segments.
proof fn lemma_row_connector(
    e: EntryInfo,
    is_last: bool,
    ancestors: Seq<bool>,
    depth: nat,
    max_depth: nat,
    long_format: bool,
    row: TreeRow,
)
    requires
        tree_row_ok(e, is_last, ancestors, depth, max_depth, long_format, row),
        row.line is Stdout,
    ensures
        strip_ansi(line_text(row.line)).subrange(
            4 * ancestors.len() as int,
            4 * ancestors.len() as int + 4,
        ) == connector(is_last),
{
    let prefix = tree_prefix(is_last, ancestors);
    let n = 4 * ancestors.len() as int;
    lemma_prefix_width(is_last, ancestors);
    lemma_prefix_connector(is_last, ancestors);
    let t = line_text(row.line);
    let head = if long_format {
        let m = e.metadata->Ok_0;
        prefix + columns_text(e.is_dir, m.size, m.modified)
    } else {
        prefix
    };
    lemma_shown_head(t, head, e.name@, e.is_dir);
    assert(head.subrange(0, prefix.len() as int) =~= prefix);
    assert(strip_ansi(t).subrange(n, n + 4) =~= head.subrange(n, n + 4));
    assert(head.subrange(n, n + 4) =~= prefix.subrange(n, n + 4));
}

proof fn lemma_top_prefix(is_last: bool)
    ensures
        tree_prefix(is_last, Seq::empty()) == connector(is_last),
{
    let segs = crate::formatter::tree_segments(is_last, Seq::empty());
    assert(crate::formatter::ancestor_run(Seq::empty()) =~= Seq::<Seq<char>>::empty());
    assert(segs.drop_last() =~= Seq::<Seq<char>>::empty());
    assert(segs.last() == connector(is_last));
    assert(crate::formatter::joined(segs.drop_last()) == Seq::<char>::empty());
    assert(Seq::<char>::empty() + connector(is_last) =~= connector(is_last));
}

/// One level of a tree listing, for a directory at `current_depth` below the
/// root whose enclosing levels have the flags `ancestors`. Nothing comes
/// past `max_depth`; otherwise the error line when the directory cannot be
/// listed, else one row per item that was read, in the directory's order.
/// The last of those rows, and no other, is marked last.
pub fn list_directory_tree_with_ancestors(
    path: &str,
    listing: &DirListing,
    long_format: bool,
    max_depth: usize,
    current_depth: usize,
    ancestors: &Vec<bool>,
) -> (r: Result<Vec<TreeRow>, String>)
    ensures
        current_depth > max_depth ==> (r matches Ok(rows) && rows@.len() == 0),
        current_depth <= max_depth ==> (match *listing {
            DirListing::Entries(items) => r matches Ok(rows) && {
                let kept = survivors(items@);
                &&& rows@.len() == kept.len()
                &&& forall|i: int|
                    0 <= i < rows@.len() ==> {
                        &&& rows@[i].entry == kept[i]
                        &&& tree_row_ok(
                            #[trigger] items@[kept[i]]->Ok_0,
                            i == rows@.len() - 1,
                            ancestors@,
                            current_depth as nat,
                            max_depth as nat,
                            long_format,
                            rows@[i],
                        )
                    }
                &&& forall|i: int|
                    0 <= i < rows@.len() ==> (#[trigger] rows@[i].is_last <==> i == rows@.len()
                        - 1)
                &&& (rows@.len() > 0 <==> exists|j: int| 0 <= j < items@.len() && items@[j] is Ok)
                &&& rows@.len() > 0 ==> {
                    let last = rows@.last().entry as int;
                    &&& items@[last] is Ok
                    &&& forall|j: int| last < j < items@.len() ==> items@[j] is Err
                }
                &&& !long_format ==> forall|i: int|
                    0 <= i < rows@.len() ==> (#[trigger] rows@[i]).line is Stdout
                &&& forall|i: int|
                    0 <= i < rows@.len() && (#[trigger] rows@[i]).line is Stdout ==> strip_ansi(
                        line_text(rows@[i].line),
                    ).subrange(4 * ancestors@.len() as int, 4 * ancestors@.len() as int + 4)
                        == connector(i == rows@.len() - 1)
            },
            _ => r matches Err(t) && listing_error_ok(path@, *listing, t@),
        }),
{
    if current_depth > max_depth {
        return Ok(Vec::new());
    }
    match listing {
        DirListing::Entries(items) => {
            let mut kept: Vec<usize> = Vec::new();
            let mut i: usize = 0;
            while i < items.len()
                invariant
                    i <= items@.len(),
                    kept@.len() == survivors(items@.take(i as int)).len(),
                    forall|k: int|
                        0 <= k < kept@.len() ==> kept@[k] as int == #[trigger] survivors(
                            items@.take(i as int),
                        )[k],
                decreases items@.len() - i,
            {
                assert(items@.take(i + 1).drop_last() =~= items@.take(i as int));
                if items[i].is_ok() {
                    kept.push(i);
                }
                i = i + 1;
            }
            assert(items@.take(items@.len() as int) =~= items@);
            proof {
                lemma_survivors(items@);
            }
            let ghost sv = survivors(items@);
            let count = kept.len();
            let mut rows: Vec<TreeRow> = Vec::new();
            let mut k: usize = 0;
            while k < count
                invariant
                    count == kept@.len(),
                    count == sv.len(),
                    sv == survivors(items@),
                    forall|q: int| 0 <= q < count ==> kept@[q] as int == #[trigger] sv[q],
                    forall|q: int| 0 <= q < sv.len() ==> 0 <= #[trigger] sv[q] < items@.len() && items@[sv[q]] is Ok,
                    k <= count,
                    rows@.len() == k,
                    forall|q: int|
                        0 <= q < k ==> {
                            &&& rows@[q].entry == sv[q]
                            &&& tree_row_ok(
                                #[trigger] items@[sv[q]]->Ok_0,
                                q == count - 1,
                                ancestors@,
                                current_depth as nat,
                                max_depth as nat,
                                long_format,
                                rows@[q],
                            )
                        },
                decreases count - k,
            {
                let at = kept[k];
                assert(kept@[k as int] as int == sv[k as int]);
                assert(items@[at as int] is Ok);
                let e = items[at].as_ref().unwrap();
                let row = tree_row(
                    e,
                    k == count - 1,
                    ancestors,
                    long_format,
                    max_depth,
                    current_depth,
                    at,
                );
                rows.push(row);
                k = k + 1;
            }
            proof {
                if rows@.len() == 0 {
                    assert(forall|j: int| 0 <= j < items@.len() ==> items@[j] is Err);
                } else {
                    assert(items@[sv[0]] is Ok);
                }
                assert forall|i: int| 0 <= i < rows@.len() && !long_format implies (
                #[trigger] rows@[i]).line is Stdout by {
                    assert(tree_row_ok(
                        items@[sv[i]]->Ok_0,
                        i == count - 1,
                        ancestors@,
                        current_depth as nat,
                        max_depth as nat,
                        long_format,
                        rows@[i],
                    ));
                }
                assert forall|i: int|
                    0 <= i < rows@.len() && (#[trigger] rows@[i]).line is Stdout implies strip_ansi(
                        line_text(rows@[i].line),
                    ).subrange(4 * ancestors@.len() as int, 4 * ancestors@.len() as int + 4)
                        == connector(i == rows@.len() - 1) by {
                    lemma_row_connector(
                        items@[sv[i]]->Ok_0,
                        i == count - 1,
                        ancestors@,
                        current_depth as nat,
                        max_depth as nat,
                        long_format,
                        rows@[i],
                    );
                }
                assert forall|i: int| 0 <= i < rows@.len() implies (#[trigger] rows@[i].is_last
                    <==> i == rows@.len() - 1) by {
                    assert(tree_row_ok(
                        items@[sv[i]]->Ok_0,
                        i == count - 1,
                        ancestors@,
                        current_depth as nat,
                        max_depth as nat,
                        long_format,
                        rows@[i],
                    ));
                }
            }
            Ok(rows)
        },
        _ => {
            let t = listing_error(path, listing);
            Err(t.unwrap())
        },
    }
}

/// A tree listing's top level: depth 0, no ancestors.
pub fn list_directory_tree(
    path: &str,
    listing: &DirListing,
    long_format: bool,
    max_depth: usize,
) -> (r: Result<Vec<TreeRow>, String>)
    ensures
        match *listing {
            DirListing::Entries(items) => r matches Ok(rows) && {
                let kept = survivors(items@);
                &&& rows@.len() == kept.len()
                &&& forall|i: int|
                    0 <= i < rows@.len() ==> {
                        &&& rows@[i].entry == kept[i]
                        &&& tree_row_ok(
                            #[trigger] items@[kept[i]]->Ok_0,
                            i == rows@.len() - 1,
                            Seq::empty(),
                            0,
                            max_depth as nat,
                            long_format,
                            rows@[i],
                        )
                    }
                &&& max_depth == 0 && !long_format ==> forall|i: int|
                    0 <= i < rows@.len() ==> {
                        let name = items@[kept[i]]->Ok_0.name@;
                        &&& (#[trigger] rows@[i]).descend is None
                        &&& rows@[i].line is Stdout
                        &&& no_escape(name) ==> strip_ansi(line_text(rows@[i].line)) == connector(
                            i == rows@.len() - 1,
                        ) + name
                    }
            },
            _ => r matches Err(t) && listing_error_ok(path@, *listing, t@),
        },
{
    let root: Vec<bool> = Vec::new();
    let r = list_directory_tree_with_ancestors(path, listing, long_format, max_depth, 0, &root);
    proof {
        assert(root@ =~= Seq::<bool>::empty());
        lemma_top_prefix(true);
        lemma_top_prefix(false);
    }
    r
}

/// At the depth ceiling an entry keeps its row, a directory included, and
/// the walk does not go into it: nothing below it is shown.
pub proof fn lemma_depth_ceiling(
    e: EntryInfo,
    is_last: bool,
    ancestors: Seq<bool>,
    max_depth: nat,
    long_format: bool,
    row: TreeRow,
)
    requires
        tree_row_ok(e, is_last, ancestors, max_depth, max_depth, long_format, row),
    ensures
        row.descend is None,
        !long_format ==> row.line is Stdout,
{
}

} // verus!
