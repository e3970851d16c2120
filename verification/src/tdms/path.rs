//! Object paths: `/` is the file, `/'group'` a group, `/'group'/'channel'` a
//! channel. A quote inside a name is written twice.

use super::error::{TdmsError, TdmsFault};
use crate::text;
use vstd::prelude::*;

verus! {

/// The name whose first character stands at `i`, behind its opening quote, and
/// the position behind its closing quote. Of two quotes in a row one counts,
/// and a name that is not closed runs to the end.
pub open spec fn name_body(s: Seq<char>, i: int) -> (Seq<char>, int)
    decreases s.len() - i,
{
    if i >= s.len() {
        (Seq::empty(), i)
    } else if s[i] == '\'' {
        if i + 1 < s.len() && s[i + 1] == '\'' {
            let (rest, next) = name_body(s, i + 2);
            (seq!['\''] + rest, next)
        } else {
            (Seq::empty(), i + 1)
        }
    } else {
        let (rest, next) = name_body(s, i + 1);
        (seq![s[i]] + rest, next)
    }
}

/// A name ends behind its start and within the path.
pub proof fn lemma_name_body_advances(s: Seq<char>, i: int)
    ensures
        name_body(s, i).1 >= i,
        i <= s.len() ==> name_body(s, i).1 <= s.len(),
    decreases s.len() - i,
{
    if i < s.len() {
        if s[i] == '\'' {
            if i + 1 < s.len() && s[i + 1] == '\'' {
                lemma_name_body_advances(s, i + 2);
            }
        } else {
            lemma_name_body_advances(s, i + 1);
        }
    }
}

/// The quoted names from `i` on. Every name but the first has a slash in
/// front; `None` where something else stands.
pub open spec fn components(s: Seq<char>, i: int, first: bool) -> Option<Seq<Seq<char>>>
    decreases s.len() - i,
{
    if i >= s.len() {
        Some(Seq::empty())
    } else if !first && s[i] != '/' {
        None
    } else {
        let j = if first {
            i
        } else {
            i + 1
        };
        if j >= s.len() || s[j] != '\'' {
            None
        } else {
            let (name, next) = name_body(s, j + 1);
            proof {
                lemma_name_body_advances(s, j + 1);
            }
            match components(s, next, false) {
                None => None,
                Some(rest) => Some(seq![name] + rest),
            }
        }
    }
}

/// What a path names: its depth (0 file, 1 group, 2 channel), the group of a
/// channel, and the object's own name.
pub open spec fn path_parts(path: Seq<char>) -> Result<
    (u8, Option<Seq<char>>, Seq<char>),
    TdmsFault,
> {
    if path.len() == 0 || path[0] != '/' {
        Err(TdmsFault::MalformedPath(path))
    } else {
        match components(path, 1, true) {
            None => Err(TdmsFault::MalformedPath(path)),
            Some(c) => if c.len() == 0 {
                Ok((0, None, Seq::empty()))
            } else if c.len() == 1 {
                Ok((1, None, c[0]))
            } else if c.len() == 2 {
                Ok((2, Some(c[0]), c[1]))
            } else {
                Err(TdmsFault::MalformedPath(path))
            },
        }
    }
}

/// The view of an optional string.
pub open spec fn opt_view(s: Option<String>) -> Option<Seq<char>> {
    match s {
        Some(t) => Some(t@),
        None => None,
    }
}

/// The names of a list of strings.
pub open spec fn views(s: Seq<String>) -> Seq<Seq<char>> {
    s.map_values(|t: String| t@)
}

/// Reads the name that starts at `start`, behind its opening quote.
fn read_name(b: &[char], start: usize) -> (r: (String, usize))
    requires
        start <= b@.len(),
    ensures
        r.0@ == name_body(b@, start as int).0,
        r.1 == name_body(b@, start as int).1,
        start <= r.1 <= b@.len(),
{
    let mut name: String = String::new();
    let mut i: usize = start;
    while i < b.len()
        invariant
            start <= i <= b@.len(),
            name_body(b@, start as int).0 =~= name@ + name_body(b@, i as int).0,
            name_body(b@, start as int).1 == name_body(b@, i as int).1,
        decreases b@.len() - i,
    {
        if b[i] == '\'' {
            if i + 1 < b.len() && b[i + 1] == '\'' {
                name.push('\'');
                i = i + 2;
            } else {
                return (name, i + 1);
            }
        } else {
            name.push(b[i]);
            i = i + 1;
        }
    }
    (name, i)
}

/// Splits a path into the depth of the object, the group of a channel, and
/// the object's name.
pub fn parse_object_path(path: &str) -> (r: Result<(u8, Option<String>, String), TdmsError>)
    ensures
        match path_parts(path@) {
            Ok((depth, parent, name)) => r matches Ok((d, p, n)) && d == depth && opt_view(p)
                == parent && n@ == name,
            Err(e) => r matches Err(x) && x@ == e,
        },
{
    let chars: Vec<char> = text::chars_of(path);
    let b: &[char] = chars.as_slice();
    if b.len() == 0 || b[0] != '/' {
        return Err(TdmsError::MalformedPath(path.to_owned()));
    }
    let mut names: Vec<String> = Vec::new();
    let mut i: usize = 1;
    let mut first: bool = true;
    let ghost whole = components(b@, 1, true);
    assert(views(names@) =~= Seq::empty());
    proof {
        if components(b@, 1, true) is Some {
            assert(whole->Some_0 =~= views(names@) + components(b@, 1, true)->Some_0);
        }
    }
    while i < b.len()
        invariant
            b@ == path@,
            b@.len() > 0,
            b@[0] == '/',
            whole == components(b@, 1, true),
            i <= b@.len(),
            whole == match components(b@, i as int, first) {
                Some(rest) => Some(views(names@) + rest),
                None => None,
            },
        decreases b@.len() - i,
    {
        let ghost before = views(names@);
        let ghost at = i as int;
        let ghost was_first = first;
        if !first {
            if b[i] != '/' {
                return Err(TdmsError::MalformedPath(path.to_owned()));
            }
            i = i + 1;
        }
        first = false;
        if i >= b.len() || b[i] != '\'' {
            return Err(TdmsError::MalformedPath(path.to_owned()));
        }
        let (name, next): (String, usize) = read_name(b, i + 1);
        let ghost name_view = name@;
        i = next;
        names.push(name);
        proof {
            assert(views(names@) =~= before.push(name_view));
            match components(b@, i as int, false) {
                Some(rest) => {
                    assert(before + (seq![name_view] + rest) =~= views(names@) + rest);
                },
                None => {},
            }
        }
    }
    proof {
        assert(views(names@) + Seq::empty() =~= views(names@));
        assert(whole == Some(views(names@)));
    }
    let count: usize = names.len();
    if count == 0 {
        Ok((0, None, String::new()))
    } else if count == 1 {
        let only: String = names[0].clone();
        assert(views(names@)[0] == names@[0]@);
        Ok((1, None, only))
    } else if count == 2 {
        assert(views(names@)[0] == names@[0]@);
        assert(views(names@)[1] == names@[1]@);
        Ok((2, Some(names[0].clone()), names[1].clone()))
    } else {
        Err(TdmsError::MalformedPath(path.to_owned()))
    }
}

/// A name with each quote written twice.
pub open spec fn escaped(name: Seq<char>) -> Seq<char>
    decreases name.len(),
{
    if name.len() == 0 {
        Seq::empty()
    } else if name.last() == '\'' {
        escaped(name.drop_last()) + seq!['\'', '\'']
    } else {
        escaped(name.drop_last()).push(name.last())
    }
}

/// A name as a path component: a slash and the escaped name in quotes.
pub open spec fn component(name: Seq<char>) -> Seq<char> {
    seq!['/', '\''] + escaped(name) + seq!['\'']
}

/// The path of the group with this name.
pub fn group_path(name: &str) -> (r: String)
    ensures
        r@ == component(name@),
{
    let chars: Vec<char> = text::chars_of(name);
    let mut out: String = String::new();
    out.push('/');
    out.push('\'');
    assert(out@ =~= seq!['/', '\''] + escaped(chars@.take(0)));
    for i in 0..chars.len()
        invariant
            out@ == seq!['/', '\''] + escaped(chars@.take(i as int)),
    {
        proof {
            assert(chars@.take(i + 1).drop_last() =~= chars@.take(i as int));
        }
        if chars[i] == '\'' {
            out.push('\'');
        }
        out.push(chars[i]);
        assert(out@ =~= seq!['/', '\''] + escaped(chars@.take(i + 1)));
    }
    out.push('\'');
    assert(chars@.take(chars@.len() as int) =~= chars@);
    assert(out@ =~= component(name@));
    out
}

} // verus!
