//! The extension policy applied to each file the directory walk yields:
//! split a file name into raw name and extension at the last dot, and decide
//! from the exclude and focus sets whether the file takes part in the search.
//! Walking the filesystem itself is the caller's business; this module only
//! decides, name by name.

use vstd::prelude::*;

use vstd::string::StrSliceExecFns;

verus! {

/// The index of the last dot in `s`, or -1 when `s` has none.
pub open spec fn last_dot_index(s: Seq<char>) -> int
    decreases s.len(),
{
    if s.len() == 0 {
        -1
    } else if s.last() == '.' {
        s.len() - 1
    } else {
        last_dot_index(s.drop_last())
    }
}

/// The name before the last dot; empty when the name has no dot.
pub open spec fn raw_name_spec(s: Seq<char>) -> Seq<char> {
    if last_dot_index(s) < 0 {
        Seq::empty()
    } else {
        s.take(last_dot_index(s))
    }
}

/// The extension after the last dot; the whole name when it has no dot.
pub open spec fn extension_spec(s: Seq<char>) -> Seq<char> {
    if last_dot_index(s) < 0 {
        s
    } else {
        s.skip(last_dot_index(s) + 1)
    }
}

/// Whether some string in `v` spells out `s`.
pub open spec fn seq_contains_string(v: Seq<String>, s: Seq<char>) -> bool {
    exists|i: int| 0 <= i < v.len() && v[i]@ == s
}

/// Whether a file of this name takes part in the search: with an empty focus
/// set, every extension but the excluded ones; otherwise exactly the focused
/// extensions.
pub open spec fn keep_file_spec(name: Seq<char>, exclude: Seq<String>, focus: Seq<String>) -> bool {
    if focus.len() == 0 {
        !seq_contains_string(exclude, extension_spec(name))
    } else {
        seq_contains_string(focus, extension_spec(name))
    }
}

/// Whether some string in `v` equals `s`.
fn contains_string(v: &Vec<String>, s: &String) -> (r: bool)
    ensures
        r == seq_contains_string(v@, s@),
{
    let mut i: usize = 0;
    while i < v.len()
        invariant
            i <= v@.len(),
            forall|j: int| 0 <= j < i ==> (#[trigger] v@[j])@ != s@,
        decreases v@.len() - i,
    {
        if v[i] == *s {
            return true;
        }
        i += 1;
    }
    false
}

/// Splits `file_name` at its last dot and decides from the exclude and focus
/// extension sets whether the file takes part in the search: the raw name
/// (before the last dot; empty when the name has no dot) when it does,
/// nothing when it does not. A name without a dot counts whole as its own
/// extension.
pub fn classify_file(file_name: &str, exclude: &Vec<String>, focus: &Vec<String>) -> (r: Option<
    String,
>)
    ensures
        match r {
            Some(raw) => keep_file_spec(file_name@, exclude@, focus@) && raw@ == raw_name_spec(
                file_name@,
            ),
            None => !keep_file_spec(file_name@, exclude@, focus@),
        },
{
    let n = file_name.unicode_len();
    let mut dot: Option<usize> = None;
    let mut i: usize = 0;
    while i < n
        invariant
            i <= n,
            n == file_name@.len(),
            dot is None ==> last_dot_index(file_name@.take(i as int)) == -1,
            dot matches Some(d) ==> d < i && last_dot_index(file_name@.take(i as int)) == d,
        decreases n - i,
    {
        let c = file_name.get_char(i);
        if c == '.' {
            dot = Some(i);
        }
        proof {
            assert(file_name@.take(i + 1).drop_last() =~= file_name@.take(i as int));
            assert(file_name@.take(i + 1).last() == file_name@[i as int]);
        }
        i += 1;
    }
    proof {
        assert(file_name@.take(n as int) =~= file_name@);
    }
    let ext: String = match dot {
        Some(d) => file_name.substring_char(d + 1, n).to_owned(),
        None => file_name.to_owned(),
    };
    proof {
        assert(ext@ == extension_spec(file_name@));
    }
    let keep = if focus.len() == 0 {
        !contains_string(exclude, &ext)
    } else {
        contains_string(focus, &ext)
    };
    if keep {
        let raw: String = match dot {
            Some(d) => file_name.substring_char(0, d).to_owned(),
            None => String::new(),
        };
        Some(raw)
    } else {
        None
    }
}

} // verus!
