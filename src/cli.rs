use vstd::prelude::*;

use crate::label::{label_to_size, lower_of, parts_result, words};

verus! {

/// What a run is asked to do: the tree of `path` goes to `out_path`; `minsize`
/// is the minimum-size threshold in bytes.
pub struct Arguments {
    pub path: String,
    pub out_path: String,
    pub minsize: u64,
}

/// A command line (program name first) of the shape `<path> [<out_json_path>]`,
/// whose path does not start with `-`.
pub open spec fn usage_ok(args: Seq<String>) -> bool {
    &&& 2 <= args.len() <= 3
    &&& !(args[1]@.len() > 0 && args[1]@[0] == '-')
}

/// The output path that a command line names, or the default one.
pub open spec fn out_path_arg(args: Seq<String>) -> Seq<char> {
    if args.len() >= 3 {
        args[2]@
    } else {
        "fs_tree.json"@
    }
}

/// Picks the input and output path arguments of a command line (program name
/// first): `None` where it is not of the shape `<path> [<out_json_path>]` or
/// the path starts with `-`; the output path is "fs_tree.json" where none is given.
pub fn select_paths(args: &Vec<String>) -> (r: Option<(String, String)>)
    ensures
        r is None <==> !usage_ok(args@),
        r is Some ==> r->Some_0.0@ == args@[1]@ && r->Some_0.1@ == out_path_arg(args@),
{
    if args.len() < 2 || args.len() > 3 {
        return None;
    }
    let first = args[1].as_str();
    if first.unicode_len() > 0 && first.get_char(0) == '-' {
        return None;
    }
    let input = args[1].clone();
    let output = if args.len() >= 3 {
        args[2].clone()
    } else {
        "fs_tree.json".to_string()
    };
    Some((input, output))
}

/// The minimum-size threshold of an optional size label: 0 where none is set,
/// else what the label reads as (its error where it reads as none).
pub fn minsize_setting(value: Option<&str>) -> (r: Result<u64, String>)
    ensures
        value is None ==> r == Ok::<u64, String>(0),
        value is Some ==> {
            let w = words(value->Some_0@);
            &&& w.len() != 2 ==> r is Err && r->Err_0@ == "Invalid format"@
            &&& w.len() == 2 ==> parts_result(w[0], lower_of(w[1]), r)
        },
{
    match value {
        None => Ok(0),
        Some(v) => label_to_size(v),
    }
}

} // verus!
