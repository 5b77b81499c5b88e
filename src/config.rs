//! Resolution of command-line tokens into a configuration.
//!
//! The tokens are a leading run of flags, then an optional input path, then an
//! optional output path. Opening what the paths name is left to the caller.
use vstd::prelude::*;

verus! {

/// Which runs are output.
#[derive(Clone, Copy, Debug, PartialEq, Eq, Structural)]
pub enum Mode {
    /// Only runs of more than one line.
    Repeated,
    /// Only runs of exactly one line.
    Unique,
    /// Every run.
    All,
}

/// Where lines are read from or written to.
#[derive(Debug)]
pub enum Endpoint {
    /// Standard input or standard output (no path, or `-`).
    Standard,
    /// The file at this path.
    Path(String),
}

/// The resolved settings for one run of the processor.
#[derive(Debug)]
pub struct Config {
    /// Where the input lines come from.
    pub source: Endpoint,
    /// Whether each record is prefixed with its run length.
    pub count: bool,
    /// Which runs are output.
    pub mode: Mode,
}

/// The token asks for run lengths to be printed.
pub open spec fn requests_count(s: Seq<char>) -> bool {
    s == "-c"@ || s == "--count"@
}

/// The mode that the token selects, if it selects one.
pub open spec fn mode_request(s: Seq<char>) -> Option<Mode> {
    if s == "-d"@ || s == "--repeated"@ {
        Some(Mode::Repeated)
    } else if s == "-u"@ {
        Some(Mode::Unique)
    } else {
        None
    }
}

/// The token is a recognised flag.
pub open spec fn is_flag(s: Seq<char>) -> bool {
    requests_count(s) || mode_request(s).is_some()
}

/// The number of flags at the front of `args`.
pub open spec fn flag_count(args: Seq<Seq<char>>) -> nat
    decreases args.len(),
{
    if args.len() > 0 && is_flag(args[0]) {
        1 + flag_count(args.drop_first())
    } else {
        0
    }
}

/// The mode after the first `n` tokens: the last mode flag among them wins.
pub open spec fn selected_mode(args: Seq<Seq<char>>, n: int) -> Mode
    decreases n,
{
    if n <= 0 {
        Mode::All
    } else {
        match mode_request(args[n - 1]) {
            Some(m) => m,
            None => selected_mode(args, n - 1),
        }
    }
}

/// Some token among the first `n` asks for run lengths.
pub open spec fn count_requested(args: Seq<Seq<char>>, n: int) -> bool {
    exists|j: int| 0 <= j < n && #[trigger] requests_count(args[j])
}

/// `e` is what the token at index `i` names: standard when there is no such
/// token or it is `-`, else the file at that path.
pub open spec fn names(e: Endpoint, args: Seq<Seq<char>>, i: int) -> bool {
    match e {
        Endpoint::Standard => i >= args.len() || args[i] == "-"@,
        Endpoint::Path(p) => 0 <= i < args.len() && args[i] != "-"@ && p@ == args[i],
    }
}

/// The settings that `args` resolve to.
pub open spec fn resolves_to(args: Seq<Seq<char>>, config: Config, destination: Endpoint) -> bool {
    let n = flag_count(args) as int;
    &&& config.mode == selected_mode(args, n)
    &&& config.count == count_requested(args, n)
    &&& names(config.source, args, n)
    &&& names(destination, args, n + 1)
}

/// The flag `f` is what the token `s` stands for.
pub(crate) open spec fn flag_means(f: Flag, s: Seq<char>) -> bool {
    match f {
        Flag::Count => requests_count(s) && mode_request(s).is_none(),
        Flag::Repeated => !requests_count(s) && mode_request(s) == Some(Mode::Repeated),
        Flag::Unique => !requests_count(s) && mode_request(s) == Some(Mode::Unique),
    }
}

pub(crate) enum Flag {
    Repeated,
    Unique,
    Count,
}

impl Flag {
    pub(crate) fn parse(value: &String) -> (r: Option<Flag>)
        ensures
            r.is_some() == is_flag(value@),
            r matches Some(Flag::Count) <==> requests_count(value@),
            r matches Some(Flag::Repeated) <==> mode_request(value@) == Some(Mode::Repeated),
            r matches Some(Flag::Unique) <==> mode_request(value@) == Some(Mode::Unique),
            r matches Some(f) ==> flag_means(f, value@),
    {
        proof {
            reveal_strlit("-c");
            reveal_strlit("--count");
            reveal_strlit("-d");
            reveal_strlit("--repeated");
            reveal_strlit("-u");
            assert("-c"@[1] != "-d"@[1] && "-c"@[1] != "-u"@[1] && "-d"@[1] != "-u"@[1]);
            assert("--count"@.len() != "--repeated"@.len());
        }
        if value.eq(&String::from_str("-c")) || value.eq(&String::from_str("--count")) {
            Some(Flag::Count)
        } else if value.eq(&String::from_str("-d")) || value.eq(&String::from_str("--repeated")) {
            Some(Flag::Repeated)
        } else if value.eq(&String::from_str("-u")) {
            Some(Flag::Unique)
        } else {
            None
        }
    }
}


proof fn lemma_flag_count(args: Seq<Seq<char>>, i: int)
    requires
        0 <= i <= args.len(),
        forall|j: int| 0 <= j < i ==> is_flag(#[trigger] args[j]),
        i == args.len() || !is_flag(args[i]),
    ensures
        flag_count(args) == i,
    decreases i,
{
    if i > 0 {
        let rest = args.drop_first();
        assert forall|j: int| 0 <= j < i - 1 implies is_flag(#[trigger] rest[j]) by {
            assert(rest[j] == args[j + 1]);
        }
        if i < args.len() {
            assert(rest[i - 1] == args[i]);
        }
        lemma_flag_count(rest, i - 1);
    }
}

/// Splits off the leading run of flags; returns them and the index of the
/// first token after them.
fn parse_flags(args: &Vec<String>) -> (r: (Vec<Flag>, usize))
    ensures
        r.1 == flag_count(args.deep_view()),
        r.1 <= args.len(),
        r.0@.len() == r.1,
        forall|k: int| 0 <= k < r.1 ==> flag_means(#[trigger] r.0@[k], args@[k]@),
{
    let ghost a = args.deep_view();
    let mut flags: Vec<Flag> = Vec::new();
    let mut i: usize = 0;
    while i < args.len()
        invariant
            a == args.deep_view(),
            0 <= i <= args.len(),
            flags@.len() == i,
            forall|j: int| 0 <= j < i ==> is_flag(#[trigger] a[j]),
            forall|k: int| 0 <= k < i ==> flag_means(#[trigger] flags@[k], args@[k]@),
        decreases args.len() - i,
    {
        match Flag::parse(&args[i]) {
            Some(flag) => {
                flags.push(flag);
            },
            None => {
                proof {
                    lemma_flag_count(a, i as int);
                }
                return (flags, i);
            },
        }
        i = i + 1;
    }
    proof {
        lemma_flag_count(a, i as int);
    }
    (flags, i)
}

/// Reads the optional path at index `start`; returns what it names and the
/// index after it.
fn parse_endpoint(args: &Vec<String>, start: usize) -> (r: (Endpoint, usize))
    requires
        start <= args.len(),
    ensures
        names(r.0, args.deep_view(), start as int),
        r.1 == if start < args.len() { start + 1 } else { start as int },
{
    if start < args.len() {
        let path = &args[start];
        proof {
            reveal_strlit("-");
        }
        if path.eq(&String::from_str("-")) {
            (Endpoint::Standard, start + 1)
        } else {
            (Endpoint::Path(path.clone()), start + 1)
        }
    } else {
        (Endpoint::Standard, start)
    }
}

/// Resolves command-line tokens (the program name left out) into the
/// configuration and the output endpoint.
///
/// Leading tokens `-c`/`--count`, `-d`/`--repeated` and `-u` are flags; the
/// last of `-d` and `-u` decides the mode. The next token, if any, names the
/// input and the one after it the output; tokens beyond are ignored.
pub fn parse_args(args: &Vec<String>) -> (r: (Config, Endpoint))
    ensures
        resolves_to(args.deep_view(), r.0, r.1),
{
    let ghost a = args.deep_view();
    let (flags, first) = parse_flags(args);
    let mut mode = Mode::All;
    let mut count = false;
    let mut k: usize = 0;
    while k < flags.len()
        invariant
            a == args.deep_view(),
            flags@.len() == first <= args.len(),
            0 <= k <= first,
            forall|j: int| 0 <= j < first ==> flag_means(#[trigger] flags@[j], args@[j]@),
            mode == selected_mode(a, k as int),
            count == count_requested(a, k as int),
        decreases flags.len() - k,
    {
        assert(flag_means(flags@[k as int], a[k as int]));
        match flags[k] {
            Flag::Repeated => {
                mode = Mode::Repeated;
            },
            Flag::Unique => {
                mode = Mode::Unique;
            },
            Flag::Count => {
                count = true;
            },
        }
        k = k + 1;
        assert(count == count_requested(a, k as int)) by {
            if count_requested(a, k as int) && !count_requested(a, k - 1) {
                let j = choose|j: int| 0 <= j < k && #[trigger] requests_count(a[j]);
                assert(j == k - 1);
            }
            if count_requested(a, k - 1) {
                let j = choose|j: int| 0 <= j < k - 1 && #[trigger] requests_count(a[j]);
                assert(requests_count(a[j]));
            }
            if count && !count_requested(a, k - 1) {
                assert(requests_count(a[k - 1]));
            }
        }
    }
    let (source, next) = parse_endpoint(args, first);
    let (destination, _rest) = parse_endpoint(args, next);
    (Config { source, count, mode }, destination)
}

} // verus!
