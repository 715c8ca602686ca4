//! Where things are kept.

use crate::text::{chars_of, push_text, string_of};
use vstd::prelude::*;
use vstd::string::*;

verus! {

/// A path below another.
pub open spec fn below(base: Seq<char>, name: Seq<char>) -> Seq<char> {
    if base.len() == 0 {
        name
    } else if base.last() == '/' {
        base + name
    } else {
        base + "/"@ + name
    }
}

fn join(base: &str, name: &str) -> (s: String)
    ensures
        s@ == below(base@, name@),
{
    let mut out = String::new();
    push_text(&mut out, base);
    let n: usize = base.unicode_len();
    if n > 0 && base.get_char(n - 1) != '/' {
        push_text(&mut out, "/");
    }
    push_text(&mut out, name);
    assert(out@ =~= below(base@, name@));
    out
}

/// The data directory, given `XDG_DATA_HOME` and `HOME`.
pub open spec fn data_path(xdg: Option<Seq<char>>, home: Option<Seq<char>>) -> Option<Seq<char>> {
    match xdg {
        Some(x) => Some(below(x, "giant-crab-rescue"@)),
        None => match home {
            Some(h) => Some(below(below(h, ".local/share"@), "giant-crab-rescue"@)),
            None => None,
        },
    }
}

/// What an optional text holds.
pub open spec fn opt_text(s: Option<&str>) -> Option<Seq<char>> {
    match s {
        Some(t) => Some(t@),
        None => None,
    }
}

/// The data directory: none where there is no home at all.
pub fn data_dir(xdg: Option<&str>, home: Option<&str>) -> (r: Option<String>)
    ensures
        match r {
            Some(s) => data_path(opt_text(xdg), opt_text(home)) == Some(s@),
            None => data_path(opt_text(xdg), opt_text(home)) is None,
        },
{
    match xdg {
        Some(x) => Some(join(x, "giant-crab-rescue")),
        None => match home {
            Some(h) => {
                let share = join(h, ".local/share");
                Some(join(share.as_str(), "giant-crab-rescue"))
            },
            None => None,
        },
    }
}

/// The text without the separators and the `.` components at its start.
pub open spec fn trimmed_front(t: Seq<char>) -> Seq<char>
    decreases t.len(),
{
    if t.len() > 0 && (t[0] == '/' || (t[0] == '.' && (t.len() == 1 || t[1] == '/'))) {
        trimmed_front(t.skip(1))
    } else {
        t
    }
}

/// The text without the separators and the `.` components at its end.
pub open spec fn trimmed_back(t: Seq<char>) -> Seq<char>
    decreases t.len(),
{
    if t.len() > 0 && (t.last() == '/' || (t.last() == '.' && (t.len() == 1 || t[t.len() - 2]
        == '/'))) {
        trimmed_back(t.drop_last())
    } else {
        t
    }
}

/// A path whose first component is `~` is the rest of it below the home directory, where
/// there is one; any other stays as it is.
pub open spec fn tilde_path(path: Seq<char>, home: Option<Seq<char>>) -> Seq<char> {
    if path.len() > 0 && path[0] == '~' && (path.len() == 1 || path[1] == '/') {
        match home {
            Some(h) => below(h, trimmed_back(trimmed_front(path.skip(1)))),
            None => path,
        }
    } else {
        path
    }
}

/// What a leading `~` of a path stands for, given `HOME`.
pub fn expand_tilde(path: &str, home: Option<&str>) -> (s: String)
    ensures
        s@ == tilde_path(path@, opt_text(home)),
{
    let mut v = chars_of(path);
    if v.len() == 0 || v[0] != '~' || (v.len() > 1 && v[1] != '/') {
        return String::from_str(path);
    }
    let h: &str = match home {
        Some(h) => h,
        None => {
            return String::from_str(path);
        },
    };
    v.remove(0);
    let ghost rest = path@.skip(1);
    assert(v@ =~= rest);
    while v.len() > 0 && (v[0] == '/' || (v[0] == '.' && (v.len() == 1 || v[1] == '/')))
        invariant
            trimmed_front(v@) == trimmed_front(rest),
        decreases v@.len(),
    {
        let ghost before = v@;
        v.remove(0);
        assert(v@ =~= before.skip(1));
    }
    let ghost front = v@;
    while v.len() > 0 && (v[v.len() - 1] == '/' || (v[v.len() - 1] == '.' && (v.len() == 1 || v[
        v.len() - 2] == '/')))
        invariant
            trimmed_back(v@) == trimmed_back(front),
        decreases v@.len(),
    {
        let ghost before = v@;
        v.pop();
        assert(v@ =~= before.drop_last());
    }
    let tail = string_of(v.as_slice());
    join(h, tail.as_str())
}

/// A place of its own: the one that was set, else one in the data directory.
pub fn kept_at(set: Option<&str>, data: Option<&str>, name: &str) -> (r: Option<String>)
    ensures
        match r {
            Some(s) => match set {
                Some(p) => s@ == p@,
                None => data matches Some(d) && s@ == below(d@, name@),
            },
            None => set is None && data is None,
        },
{
    match set {
        Some(p) => Some(String::from_str(p)),
        None => match data {
            Some(d) => Some(join(d, name)),
            None => None,
        },
    }
}

/// A path below another begins with it and ends with the name, with a separator between them
/// exactly if there is something before it that does not end in one.
pub proof fn lemma_below_is_below(base: Seq<char>, name: Seq<char>)
    ensures
        ({
            let p = below(base, name);
            let n = base.len() as int;
            &&& p.take(n) == base
            &&& (n > 0 && base.last() != '/' ==> p == base.push('/') + name)
            &&& (n == 0 || base.last() == '/' ==> p == base + name)
        }),
{
    reveal_strlit("/");
    let p = below(base, name);
    assert(p.take(base.len() as int) =~= base);
    assert(base.len() > 0 && base.last() != '/' ==> p =~= base.push('/') + name);
    assert(base.len() == 0 ==> p =~= base + name);
}

/// Below a home, a path that starts with `~/` is what follows, and any other path stays.
pub proof fn lemma_tilde_is_home(rest: Seq<char>, home: Seq<char>)
    requires
        rest.len() > 0,
        rest[0] != '/' && rest[0] != '.',
        rest.last() != '/' && rest.last() != '.',
    ensures
        tilde_path(seq!['~', '/'] + rest, Some(home)) == below(home, rest),
        tilde_path(seq!['~', '/'] + rest, None) == seq!['~', '/'] + rest,
        rest[0] != '~' ==> tilde_path(rest, Some(home)) == rest,
        tilde_path(seq!['~'] + rest, Some(home)) == seq!['~'] + rest,
{
    let p = seq!['~', '/'] + rest;
    assert(p.skip(1) =~= seq!['/'] + rest);
    assert((seq!['/'] + rest).skip(1) =~= rest);
    reveal_with_fuel(trimmed_front, 3);
}

} // verus!
