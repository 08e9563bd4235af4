use vstd::prelude::*;
use vstd::string::StringExecFns;
use crate::argument_error::{ArgumentError, text_of};
use crate::options::Options;

verus! {

/// The value of a string of decimal digits.
pub open spec fn digits_value(d: Seq<char>) -> nat
    decreases d.len(),
{
    if d.len() == 0 {
        0
    } else {
        digits_value(d.drop_last()) * 10 + (d.last() as u32 - '0' as u32) as nat
    }
}

/// The number that `s` spells: an optional `+`, then one or more ASCII digits,
/// whose value fits in `u32`.
pub open spec fn parsed_u32(s: Seq<char>) -> Option<u32> {
    let d = if s.len() > 0 && s[0] == '+' { s.drop_first() } else { s };
    if d.len() > 0 && (forall|i: int| 0 <= i < d.len() ==> '0' <= #[trigger] d[i] <= '9')
        && digits_value(d) <= u32::MAX {
        Some(digits_value(d) as u32)
    } else {
        None
    }
}

/// Relies on `str::parse::<u32>` (`u32::from_str`): it accepts exactly an
/// optional `+` followed by ASCII digits whose value fits in `u32`. The error
/// comes back as the text of `ParseIntError`.
#[verifier::external_body]
fn parse_u32(s: &str) -> (r: Result<u32, String>)
    ensures
        match r {
            Ok(n) => parsed_u32(s@) == Some(n),
            Err(_) => parsed_u32(s@) is None,
        },
{
    s.parse::<u32>().map_err(|e| e.to_string())
}

pub open spec fn with_flag(o: Options, a: Seq<char>) -> Options {
    if a == "-silent"@ {
        Options { silent: true, ..o }
    } else if a == "-ignorelinks"@ {
        Options { ignore_links: true, ..o }
    } else {
        Options { with_rev_info: true, ..o }
    }
}

pub open spec fn is_flag(a: Seq<char>) -> bool {
    a == "-silent"@ || a == "-ignorelinks"@ || a == "-withrevinfo"@
}

/// Reads `args` from index `i` on, with the options and paths seen so far, and
/// `stop` set once options are no longer looked for. A failure is `None` when
/// `-maxdepth` has no value, and the value when it is not a number.
pub open spec fn scan(
    args: Seq<Seq<char>>,
    i: int,
    o: Options,
    paths: Seq<Seq<char>>,
    stop: bool,
) -> Result<(Options, Seq<Seq<char>>), Option<Seq<char>>>
    decreases args.len() - i,
{
    if i < 0 || i >= args.len() {
        Ok((o, paths))
    } else if !stop && is_flag(args[i]) {
        scan(args, i + 1, with_flag(o, args[i]), paths, stop)
    } else if !stop && args[i] == "-maxdepth"@ {
        if i + 1 >= args.len() {
            Err(None)
        } else {
            match parsed_u32(args[i + 1]) {
                Some(n) => scan(args, i + 2, Options { max_depth: Some(n), ..o }, paths, stop),
                None => Err(Some(args[i + 1])),
            }
        }
    } else if !stop && args[i] == "--"@ {
        scan(args, i + 1, o, paths, true)
    } else {
        scan(args, i + 1, o, paths.push(args[i]), true)
    }
}

pub open spec fn default_options() -> Options {
    Options { silent: false, ignore_links: false, with_rev_info: false, max_depth: None }
}

pub open spec fn strings_view(v: Seq<String>) -> Seq<Seq<char>> {
    v.map_values(|s: String| s@)
}

/// What `parse_args` promises for the arguments `args`.
pub open spec fn parse_outcome(
    args: Seq<Seq<char>>,
    r: Result<(Options, Vec<String>, Option<String>), ArgumentError>,
) -> bool {
    match scan(args, 0, default_options(), Seq::empty(), false) {
        Err(None) => {
            &&& r is Err
            &&& r->Err_0.text() == "no value specified for -maxdepth"@
            &&& r->Err_0.cause_text() is None
        },
        Err(Some(value)) => {
            &&& r is Err
            &&& r->Err_0.cause_text() is Some
            &&& r->Err_0.text() == "failed to parse -maxdepth argument \""@ + value + "\": "@
                + r->Err_0.cause_text()->0
        },
        Ok((o, paths)) => if paths.len() == 0 {
            &&& r is Err
            &&& r->Err_0.text() == "no source directory specified"@
            &&& r->Err_0.cause_text() is None
        } else {
            &&& r is Ok
            &&& r->Ok_0.0 == o
            &&& if paths.len() == 1 {
                &&& strings_view(r->Ok_0.1@) == paths
                &&& r->Ok_0.2 is None
            } else {
                &&& strings_view(r->Ok_0.1@) == paths.drop_last()
                &&& text_of(r->Ok_0.2) == Some(paths.last())
            }
        },
    }
}

/// Reads the command line (without the program name): the options, the source
/// directories and the destination. With fewer than two paths there is no
/// destination among them (`None`: the current directory is meant) and every
/// path is a source; otherwise the last path is the destination.
pub fn parse_args(args: &Vec<String>) -> (r: Result<(Options, Vec<String>, Option<String>), ArgumentError>)
    ensures
        parse_outcome(strings_view(args@), r),
{
    let ghost av = strings_view(args@);
    let silent = String::from_str("-silent");
    let ignore_links = String::from_str("-ignorelinks");
    let with_rev_info = String::from_str("-withrevinfo");
    let max_depth = String::from_str("-maxdepth");
    let dashes = String::from_str("--");
    let mut options = Options::new();
    let mut paths: Vec<String> = Vec::new();
    let mut stop = false;
    let mut i: usize = 0;
    assert(options == default_options());
    assert(strings_view(paths@) =~= Seq::<Seq<char>>::empty());
    while i < args.len()
        invariant
            av == strings_view(args@),
            i <= args.len(),
            silent@ == "-silent"@,
            ignore_links@ == "-ignorelinks"@,
            with_rev_info@ == "-withrevinfo"@,
            max_depth@ == "-maxdepth"@,
            dashes@ == "--"@,
            scan(av, 0, default_options(), Seq::empty(), false) == scan(
                av,
                i as int,
                options,
                strings_view(paths@),
                stop,
            ),
        decreases args.len() - i,
    {
        let arg = &args[i];
        assert(av[i as int] == arg@);
        if !stop && *arg == silent {
            options.silent = true;
            i = i + 1;
        } else if !stop && *arg == ignore_links {
            options.ignore_links = true;
            i = i + 1;
        } else if !stop && *arg == with_rev_info {
            options.with_rev_info = true;
            i = i + 1;
        } else if !stop && *arg == max_depth {
            if i + 1 >= args.len() {
                return Err(ArgumentError::new(String::from_str("no value specified for -maxdepth"), None));
            }
            let value = &args[i + 1];
            assert(av[i + 1] == value@);
            match parse_u32(value.as_str()) {
                Ok(n) => {
                    options.max_depth = Some(n);
                },
                Err(message) => {
                    let mut description = String::from_str("failed to parse -maxdepth argument \"");
                    description.append(value.as_str());
                    description.append("\": ");
                    description.append(message.as_str());
                    return Err(ArgumentError::new(description, Some(message)));
                },
            }
            i = i + 2;
        } else if !stop && *arg == dashes {
            stop = true;
            i = i + 1;
        } else {
            stop = true;
            let ghost before = strings_view(paths@);
            paths.push(arg.clone());
            assert(strings_view(paths@) =~= before.push(arg@));
            i = i + 1;
        }
    }
    let ghost pv = strings_view(paths@);
    if paths.len() == 0 {
        return Err(ArgumentError::new(String::from_str("no source directory specified"), None));
    }
    if paths.len() < 2 {
        return Ok((options, paths, None));
    }
    let destination = paths.pop();
    assert(strings_view(paths@) =~= pv.drop_last());
    match destination {
        Some(d) => Ok((options, paths, Some(d))),
        None => Err(ArgumentError::new(String::from_str("no destination directory specified"), None)),
    }
}

} // verus!
