//! Pure formatting: tree prefixes and timestamps.
use crate::paint::{
    Hue, hue_code, lemma_strip_append, lemma_strip_styled, no_escape, paint, painted,
    state_after, strip_ansi, strip_from,
};
use vstd::prelude::*;
use vstd::string::StringExecFns;

verus! {

/// Four blanks: the ancestor was the last of its siblings.
pub open spec fn blank_segment() -> Seq<char> {
    seq![' ', ' ', ' ', ' ']
}

/// A vertical bar: a sibling of the ancestor still follows.
pub open spec fn bar_segment() -> Seq<char> {
    seq!['│', ' ', ' ', ' ']
}

/// The connector of the last entry of a directory.
pub open spec fn corner_glyph() -> Seq<char> {
    seq!['└', '─', '─', ' ']
}

/// The connector of an entry that has a later sibling.
pub open spec fn branch_glyph() -> Seq<char> {
    seq!['├', '─', '─', ' ']
}

pub open spec fn ancestor_segment(was_last: bool) -> Seq<char> {
    if was_last {
        blank_segment()
    } else {
        bar_segment()
    }
}

pub open spec fn connector(is_last: bool) -> Seq<char> {
    if is_last {
        corner_glyph()
    } else {
        branch_glyph()
    }
}

/// The segments of a prefix, outermost first: one per ancestor, then the
/// entry's own connector.
pub open spec fn tree_segments(is_last: bool, ancestors: Seq<bool>) -> Seq<Seq<char>> {
    ancestor_run(ancestors).push(connector(is_last))
}

/// One segment per ancestor, outermost first.
pub open spec fn ancestor_run(ancestors: Seq<bool>) -> Seq<Seq<char>> {
    ancestors.map_values(|a: bool| ancestor_segment(a))
}

/// The segments written one after the other.
pub open spec fn joined(segs: Seq<Seq<char>>) -> Seq<char>
    decreases segs.len(),
{
    if segs.len() == 0 {
        Seq::empty()
    } else {
        joined(segs.drop_last()) + segs.last()
    }
}

/// The segments written one after the other, those marked in `lit` wrapped
/// in the style `params`.
pub open spec fn styled_join(segs: Seq<Seq<char>>, lit: Seq<bool>, params: Seq<char>) -> Seq<char>
    decreases segs.len(),
{
    if segs.len() == 0 {
        Seq::empty()
    } else {
        styled_join(segs.drop_last(), lit.drop_last(), params) + if lit.last() {
            painted(segs.last(), params)
        } else {
            segs.last()
        }
    }
}

/// The prefix as a terminal shows it.
pub open spec fn tree_prefix(is_last: bool, ancestors: Seq<bool>) -> Seq<char> {
    joined(tree_segments(is_last, ancestors))
}

/// The colour band of a nesting depth.
pub open spec fn depth_hue(depth: nat) -> Hue {
    let k = depth % 6;
    if k == 0 {
        Hue::Blue
    } else if k == 1 {
        Hue::Green
    } else if k == 2 {
        Hue::Yellow
    } else if k == 3 {
        Hue::Magenta
    } else if k == 4 {
        Hue::Cyan
    } else {
        Hue::Red
    }
}

/// The colour of the prefix segments at a depth, cycling through a fixed
/// palette.
pub fn hue_for_depth(depth: usize) -> (h: Hue)
    ensures
        h == depth_hue(depth as nat),
{
    let k = depth % 6;
    if k == 0 {
        Hue::Blue
    } else if k == 1 {
        Hue::Green
    } else if k == 2 {
        Hue::Yellow
    } else if k == 3 {
        Hue::Magenta
    } else if k == 4 {
        Hue::Cyan
    } else {
        Hue::Red
    }
}

proof fn lemma_segment_chars(a: bool)
    ensures
        no_escape(ancestor_segment(a)),
        ancestor_segment(a).len() == 4,
        forall|j: int|
            0 <= j < 4 ==> #[trigger] ancestor_segment(a)[j] == ' ' || ancestor_segment(a)[j]
                == '│',
{
}

/// Builds the box-drawing prefix of an entry: one four-character segment per
/// ancestor, then the entry's connector, each segment in the colour of
/// `depth`. Escape codes aside, it reads as `tree_prefix`.
pub fn format_tree_prefix(is_last: bool, ancestors: &[bool], depth: usize) -> (r: String)
    ensures
        exists|lit: Seq<bool>|
            lit.len() == ancestors@.len() + 1 && r@ == styled_join(
                tree_segments(is_last, ancestors@),
                lit,
                hue_code(depth_hue(depth as nat)),
            ),
        strip_ansi(r@) == tree_prefix(is_last, ancestors@),
        state_after(r@, false) == false,
{
    let hue = hue_for_depth(depth);
    let ghost params = hue_code(hue);
    let ghost segs = tree_segments(is_last, ancestors@);
    let mut prefix = String::new();
    let ghost mut lit: Seq<bool> = Seq::empty();
    proof {
        reveal_strlit("    ");
        reveal_strlit("│   ");
        reveal_strlit("└── ");
        reveal_strlit("├── ");
    }
    let mut i: usize = 0;
    while i < ancestors.len()
        invariant
            i <= ancestors@.len(),
            segs == tree_segments(is_last, ancestors@),
            params == hue_code(hue),
            lit.len() == i,
            prefix@ == styled_join(segs.take(i as int), lit, params),
            strip_from(prefix@, false) == joined(segs.take(i as int)),
            state_after(prefix@, false) == false,
        decreases ancestors@.len() - i,
    {
        proof {
            reveal_strlit("    ");
            reveal_strlit("│   ");
        }
        let seg = if ancestors[i] {
            "    "
        } else {
            "│   "
        };
        assert(seg@ =~= ancestor_segment(ancestors@[i as int]));
        assert(seg@ == segs[i as int]);
        let piece = paint(seg, hue);
        proof {
            lemma_segment_chars(ancestors@[i as int]);
            lemma_strip_styled(piece@, seg@, hue, false);
            lemma_strip_append(prefix@, piece@, false);
            assert(segs.take(i + 1).drop_last() =~= segs.take(i as int));
            let b = piece@ != seg@;
            assert(lit.push(b).drop_last() =~= lit);
            assert(segs.take(i + 1).last() == seg@);
            lit = lit.push(b);
        }
        prefix.append(piece.as_str());
        i = i + 1;
    }
    let glyph = if is_last {
        "└── "
    } else {
        "├── "
    };
    let n = ancestors.len();
    assert(glyph@ =~= connector(is_last));
    assert(glyph@ == segs[n as int]);
    assert(no_escape(glyph@));
    let piece = paint(glyph, hue);
    proof {
        lemma_strip_styled(piece@, glyph@, hue, false);
        lemma_strip_append(prefix@, piece@, false);
        assert(segs.take(n + 1) =~= segs);
        assert(segs.take(n + 1).drop_last() =~= segs.take(n as int));
        let b = piece@ != glyph@;
        assert(lit.push(b).drop_last() =~= lit);
        assert(segs.take(n + 1).last() == glyph@);
        lit = lit.push(b);
    }
    prefix.append(piece.as_str());
    assert(lit.len() == ancestors@.len() + 1 && prefix@ == styled_join(segs, lit, params));
    prefix
}

proof fn lemma_ancestor_run(ancestors: Seq<bool>)
    ensures
        joined(ancestor_run(ancestors)).len() == 4 * ancestors.len(),
        forall|j: int|
            0 <= j < 4 * ancestors.len() ==> #[trigger] joined(ancestor_run(ancestors))[j] == ' '
                || joined(ancestor_run(ancestors))[j] == '│',
    decreases ancestors.len(),
{
    if ancestors.len() > 0 {
        let segs = ancestor_run(ancestors);
        let front = ancestors.drop_last();
        assert(segs.drop_last() =~= ancestor_run(front));
        lemma_ancestor_run(front);
        lemma_segment_chars(ancestors.last());
        let head = joined(segs.drop_last());
        let last = segs.last();
        assert(last == ancestor_segment(ancestors.last()));
        assert forall|j: int| 0 <= j < 4 * ancestors.len() implies #[trigger] joined(segs)[j]
            == ' ' || joined(segs)[j] == '│' by {
            if j < head.len() {
                assert(joined(segs)[j] == head[j]);
            } else {
                assert(joined(segs)[j] == last[j - head.len()]);
            }
        }
    }
}

/// Escape codes aside, a tree prefix is four characters wide for each
/// ancestor and four more for the entry's connector, so that entries at one
/// depth line up.
pub proof fn lemma_prefix_width(is_last: bool, ancestors: Seq<bool>)
    ensures
        tree_prefix(is_last, ancestors).len() == 4 * ancestors.len() + 4,
{
    let segs = tree_segments(is_last, ancestors);
    assert(segs.drop_last() =~= ancestor_run(ancestors));
    lemma_ancestor_run(ancestors);
}

/// A tree prefix ends with the corner glyph when the entry is the last of
/// its siblings and with the branch glyph otherwise; the first character of
/// neither glyph stands anywhere before that connector.
pub proof fn lemma_prefix_connector(is_last: bool, ancestors: Seq<bool>)
    ensures
        tree_prefix(is_last, ancestors).subrange(
            4 * ancestors.len() as int,
            4 * ancestors.len() as int + 4,
        ) == connector(is_last),
        is_last ==> tree_prefix(is_last, ancestors).subrange(
            4 * ancestors.len() as int,
            4 * ancestors.len() as int + 4,
        ) == corner_glyph(),
        !is_last ==> tree_prefix(is_last, ancestors).subrange(
            4 * ancestors.len() as int,
            4 * ancestors.len() as int + 4,
        ) == branch_glyph(),
        forall|j: int|
            0 <= j < 4 * ancestors.len() ==> #[trigger] tree_prefix(is_last, ancestors)[j] != '└'
                && tree_prefix(is_last, ancestors)[j] != '├',
{
    let segs = tree_segments(is_last, ancestors);
    let run = ancestor_run(ancestors);
    assert(segs.drop_last() =~= run);
    lemma_ancestor_run(ancestors);
    let p = tree_prefix(is_last, ancestors);
    assert(p == joined(run) + connector(is_last));
    assert(p.subrange(4 * ancestors.len() as int, 4 * ancestors.len() as int + 4) =~= connector(is_last));
    assert forall|j: int| 0 <= j < 4 * ancestors.len() implies #[trigger] p[j] != '└' && p[j]
        != '├' by {
        assert(p[j] == joined(run)[j]);
    }
}

} // verus!
