//! The input set: which entries of a directory are event logs, and the
//! paths under which they are opened.

use vstd::prelude::*;
use vstd::string::StringExecFns;
use crate::text::chars_of;

verus! {

/// The ending of the name of an event log: `.csv.gzip`.
pub open spec fn input_suffix() -> Seq<char> {
    seq!['.', 'c', 's', 'v', '.', 'g', 'z', 'i', 'p']
}

/// `name` is the name of an event log: it ends in `.csv.gzip`.
pub open spec fn names_input(name: Seq<char>) -> bool {
    input_suffix().is_suffix_of(name)
}

/// The path of the entry `name` of the directory `parent`.
pub open spec fn path_in(parent: Seq<char>, name: Seq<char>) -> Seq<char> {
    parent + seq!['/'] + name
}

/// The paths of those of `names` that name an event log, in the order of
/// `names`.
pub open spec fn input_paths_of(parent: Seq<char>, names: Seq<Seq<char>>) -> Seq<Seq<char>>
    decreases names.len(),
{
    if names.len() == 0 {
        Seq::empty()
    } else if names_input(names.last()) {
        input_paths_of(parent, names.drop_last()).push(path_in(parent, names.last()))
    } else {
        input_paths_of(parent, names.drop_last())
    }
}

/// Tells whether a directory entry is an event log, by its name.
pub fn is_input_file(name: &str) -> (is_input: bool)
    ensures
        is_input == names_input(name@),
{
    let chars = chars_of(name);
    let n = chars.len();
    if n < 9 {
        return false;
    }
    let at = n - 9;
    let matches = chars[at] == '.' && chars[at + 1] == 'c' && chars[at + 2] == 's' && chars[at
        + 3] == 'v' && chars[at + 4] == '.' && chars[at + 5] == 'g' && chars[at + 6] == 'z'
        && chars[at + 7] == 'i' && chars[at + 8] == 'p';
    proof {
        let tail = name@.skip(name@.len() - 9);
        if matches {
            assert(tail =~= input_suffix());
        } else {
            assert(tail.len() == 9);
            assert(tail[0] == chars@[at as int]);
            assert(tail[1] == chars@[at + 1]);
            assert(tail[2] == chars@[at + 2]);
            assert(tail[3] == chars@[at + 3]);
            assert(tail[4] == chars@[at + 4]);
            assert(tail[5] == chars@[at + 5]);
            assert(tail[6] == chars@[at + 6]);
            assert(tail[7] == chars@[at + 7]);
            assert(tail[8] == chars@[at + 8]);
        }
    }
    matches
}

/// Picks the event logs among the entries of a directory and gives the
/// path of each, in the order in which the entries came.
pub fn input_paths(parent: &str, names: &Vec<String>) -> (paths: Vec<String>)
    ensures
        paths@.len() == input_paths_of(parent@, names@.map_values(|n: String| n@)).len(),
        forall|i: int|
            0 <= i < paths@.len() ==> paths@[i]@ == input_paths_of(
                parent@,
                names@.map_values(|n: String| n@),
            )[i],
{
    let ghost all = names@.map_values(|n: String| n@);
    let mut paths: Vec<String> = Vec::new();
    let mut i: usize = 0;
    while i < names.len()
        invariant
            i <= names.len(),
            all == names@.map_values(|n: String| n@),
            paths@.len() == input_paths_of(parent@, all.take(i as int)).len(),
            forall|j: int|
                0 <= j < paths@.len() ==> paths@[j]@ == input_paths_of(
                    parent@,
                    all.take(i as int),
                )[j],
        decreases names.len() - i,
    {
        proof {
            assert(all.take(i + 1).drop_last() =~= all.take(i as int));
            assert(all.take(i + 1).last() == names@[i as int]@);
        }
        if is_input_file(names[i].as_str()) {
            let mut path = String::from_str(parent);
            path.append("/");
            path.append(names[i].as_str());
            proof {
                reveal_strlit("/");
                assert("/"@ =~= seq!['/']);
            }
            paths.push(path);
        }
        i = i + 1;
    }
    proof {
        assert(all.take(names@.len() as int) =~= all);
    }
    paths
}

} // verus!
