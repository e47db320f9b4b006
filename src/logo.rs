//! The start-up banner.
use vstd::prelude::*;
use vstd::string::StringExecFns;

verus! {

/// How the banner is shown.
#[derive(Clone, Debug)]
pub struct LogoConfig {
    /// Whether the banner is coloured.
    pub colored: bool,
    /// The escape sequence that starts the colour.
    pub color_code: &'static str,
    /// The escape sequence that ends it.
    pub reset_code: &'static str,
}

impl Default for LogoConfig {
    fn default() -> (r: Self)
        ensures
            r.colored,
            r.color_code@ == "\x1B[38;5;208m"@,
            r.reset_code@ == "\x1B[0m"@,
    {
        LogoConfig { colored: true, color_code: "\x1B[38;5;208m", reset_code: "\x1B[0m" }
    }
}

/// The banner of the file manager.
pub struct FileManLogo;

/// The banner's art, line by line.
pub open spec fn banner() -> Seq<Seq<char>> {
    seq![
        " ██████╗ ███████╗ ██████╗ ██████╗ ███████╗"@,
        "██╔════╝ ██╔════╝██╔════╝██╔═══██╗██╔════╝"@,
        "██║  ███╗█████╗  ██║     ██████╔╝███████╗"@,
        "██║   ██║██╔══╝  ██║     ██╔══██╗╚════██║"@,
        "╚██████╔╝███████╗╚██████╗██║  ██║███████║"@,
        " ╚═════╝ ╚══════╝ ╚═════╝╚═╝  ╚═╝╚══════╝"@,
        "                                        "@,
        "     File Manager CLI - v0.1.0          "@,
    ]
}

impl FileManLogo {
    /// The lines to print: the art, between the colour and its reset when
    /// the banner is coloured.
    pub fn lines(config: &LogoConfig) -> (r: Vec<String>)
        ensures
            config.colored ==> r@.len() == 10 && r@[0]@ == config.color_code@ && r@[9]@
                == config.reset_code@ && forall|i: int| 0 <= i < 8 ==> #[trigger] r@[i + 1]@
                == banner()[i],
            !config.colored ==> r@.len() == 8 && forall|i: int|
                0 <= i < 8 ==> #[trigger] r@[i]@ == banner()[i],
    {
        let art = [
            " ██████╗ ███████╗ ██████╗ ██████╗ ███████╗",
            "██╔════╝ ██╔════╝██╔════╝██╔═══██╗██╔════╝",
            "██║  ███╗█████╗  ██║     ██████╔╝███████╗",
            "██║   ██║██╔══╝  ██║     ██╔══██╗╚════██║",
            "╚██████╔╝███████╗╚██████╗██║  ██║███████║",
            " ╚═════╝ ╚══════╝ ╚═════╝╚═╝  ╚═╝╚══════╝",
            "                                        ",
            "     File Manager CLI - v0.1.0          ",
        ];
        let mut r: Vec<String> = Vec::new();
        if config.colored {
            r.push(String::from_str(config.color_code));
        }
        let start: usize = r.len();
        let mut i: usize = 0;
        while i < 8
            invariant
                start == (if config.colored { 1usize } else { 0usize }),
                config.colored ==> r@[0]@ == config.color_code@,
                forall|k: int| 0 <= k < 8 ==> #[trigger] art@[k]@ == banner()[k],
                i <= 8,
                r@.len() == start + i,
                forall|k: int| 0 <= k < i ==> #[trigger] r@[start + k]@ == banner()[k],
            decreases 8 - i,
        {
            r.push(String::from_str(art[i]));
            i = i + 1;
        }
        let ghost body = r@;
        if config.colored {
            r.push(String::from_str(config.reset_code));
        }
        assert forall|k: int| 0 <= k < 8 implies #[trigger] r@[start + k]@ == banner()[k] by {
            assert(r@[start + k] == body[start + k]);
        }
        if config.colored {
            assert forall|k: int| 0 <= k < 8 implies #[trigger] r@[k + 1]@ == banner()[k] by {
                assert(r@[start + k]@ == banner()[k]);
            }
        } else {
            assert forall|k: int| 0 <= k < 8 implies #[trigger] r@[k]@ == banner()[k] by {
                assert(r@[start + k]@ == banner()[k]);
            }
        }
        r
    }
}

} // verus!
