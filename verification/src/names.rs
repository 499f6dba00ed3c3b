//! File names: which entries are JSON tests, and what the tests that the
//! complex rule makes are called.

use vstd::prelude::*;
use crate::terms::{chars_of_all, join_chars, join_with, string_views};
use crate::text::{append_all, chars_of, string_of};

verus! {

/// `.json`.
pub open spec fn json_suffix() -> Seq<char> {
    seq!['.', 'j', 's', 'o', 'n']
}

/// The position of the last `.` before position `k`.
pub open spec fn last_dot_before(s: Seq<char>, k: int) -> Option<int>
    decreases k,
{
    if k <= 0 {
        None
    } else if s[k - 1] == '.' {
        Some(k - 1)
    } else {
        last_dot_before(s, k - 1)
    }
}

/// The extension of a file name, as `Path::extension` documents it: none
/// for `..`, for a name without a `.`, and for a name whose only `.` is its
/// first char; otherwise what follows the last `.`.
pub open spec fn spec_extension(name: Seq<char>) -> Option<Seq<char>> {
    if name == seq!['.', '.'] {
        None
    } else {
        match last_dot_before(name, name.len() as int) {
            None => None,
            Some(i) => if i == 0 {
                None
            } else {
                Some(name.subrange(i + 1, name.len() as int))
            },
        }
    }
}

proof fn lemma_last_dot_before(s: Seq<char>, k: int)
    requires
        0 <= k <= s.len(),
    ensures
        match last_dot_before(s, k) {
            None => forall|j: int| 0 <= j < k ==> s[j] != '.',
            Some(i) => 0 <= i < k && s[i] == '.' && forall|j: int| i < j < k ==> s[j] != '.',
        },
    decreases k,
{
    if k > 0 && s[k - 1] != '.' {
        lemma_last_dot_before(s, k - 1);
    }
}

/// A file name has the extension `json` exactly when it ends with `.json`
/// and has something before that.
pub proof fn lemma_json_extension(name: Seq<char>)
    ensures
        (spec_extension(name) == Some(seq!['j', 's', 'o', 'n'])) <==> (name.len() > 5
            && name.subrange(name.len() - 5, name.len() as int) == json_suffix()),
{
    lemma_last_dot_before(name, name.len() as int);
    let len = name.len() as int;
    if spec_extension(name) == Some(seq!['j', 's', 'o', 'n']) {
        let i = last_dot_before(name, len).unwrap();
        assert(name.subrange(i + 1, len).len() == 4);
        assert(name.subrange(len - 5, len) =~= json_suffix()) by {
            assert(name.subrange(i + 1, len)[0] == 'j');
        }
    }
    if len > 5 && name.subrange(len - 5, len) == json_suffix() {
        assert(name[len - 5] == name.subrange(len - 5, len)[0]);
        assert(forall|j: int| len - 5 < j < len ==> name[j] == name.subrange(len - 5, len)[j - (len - 5)]);
        match last_dot_before(name, len) {
            None => {
                assert(name[len - 5] == '.');
            },
            Some(i) => {
                if i > len - 5 {
                    assert(name[i] == name.subrange(len - 5, len)[i - (len - 5)]);
                }
                assert(i == len - 5);
                assert(name != seq!['.', '.']);
                assert(name.subrange(i + 1, len) =~= seq!['j', 's', 'o', 'n']);
            },
        }
    }
}

/// Whether a file name has the extension `json`, in the sense of
/// `Path::extension`.
pub fn is_json_file_name(name: &str) -> (r: bool)
    ensures
        r == (spec_extension(name@) == Some(seq!['j', 's', 'o', 'n'])),
{
    proof {
        lemma_json_extension(name@);
    }
    let s = chars_of(name);
    let len = s.len();
    if len <= 5 {
        return false;
    }
    let r = s[len - 5] == '.' && s[len - 4] == 'j' && s[len - 3] == 's' && s[len - 2] == 'o' && s[len - 1] == 'n';
    proof {
        let sub = s@.subrange(len - 5, len as int);
        if r {
            assert(sub =~= json_suffix());
        } else {
            assert(sub != json_suffix()) by {
                if sub == json_suffix() {
                    assert(sub[0] == s@[len - 5]);
                    assert(sub[1] == s@[len - 4]);
                    assert(sub[2] == s@[len - 3]);
                    assert(sub[3] == s@[len - 2]);
                    assert(sub[4] == s@[len - 1]);
                }
            }
        }
    }
    r
}

/// The name of the test that the complex rule makes from the test named
/// `stem` by replacing `group` with `replacement`:
/// `{stem}_{replacement}_{group joined with _}.json`.
pub fn mutated_file_name(stem: &str, replacement: &str, group: &[String]) -> (r: String)
    ensures
        r@ == stem@ + seq!['_'] + replacement@ + seq!['_'] + join_with(string_views(group@), '_') + json_suffix(),
{
    let mut out = chars_of(stem);
    out.push('_');
    let rep = chars_of(replacement);
    append_all(&mut out, &rep);
    out.push('_');
    let g = chars_of_all(group);
    let joined = join_chars(&g, '_');
    append_all(&mut out, &joined);
    out.push('.');
    out.push('j');
    out.push('s');
    out.push('o');
    out.push('n');
    assert(out@ =~= stem@ + seq!['_'] + replacement@ + seq!['_'] + join_with(string_views(group@), '_') + json_suffix());
    string_of(out.as_slice())
}


/// The tests that the complex rule writes have the extension `json`, so a
/// run that looks for JSON tests picks them up.
pub proof fn lemma_mutated_file_name_is_json(stem: Seq<char>, replacement: Seq<char>, group: Seq<Seq<char>>)
    ensures
        spec_extension(stem + seq!['_'] + replacement + seq!['_'] + join_with(group, '_') + json_suffix())
            == Some(seq!['j', 's', 'o', 'n']),
{
    let name = stem + seq!['_'] + replacement + seq!['_'] + join_with(group, '_') + json_suffix();
    lemma_json_extension(name);
    assert(name.subrange(name.len() - 5, name.len() as int) =~= json_suffix());
}

} // verus!
