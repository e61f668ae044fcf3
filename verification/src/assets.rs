//! The embedded figure store: an immutable name-to-template table compiled
//! into the library, looked up by file name, with the short figure names
//! derived from the stored file names.

use vstd::prelude::*;

verus! {

use vstd::string::StringExecFns;
use crate::text::{
    chars_of,
    copy_range,
    first_occ,
    lemma_first_occ_bounds,
    lemma_first_occ_is,
    token_at,
    views,
};

/// The views of a sequence of strings.
pub open spec fn str_views(ls: Seq<String>) -> Seq<Seq<char>> {
    Seq::new(ls.len(), |i: int| ls[i]@)
}

/// The classic default cow template.
pub open spec fn default_template() -> Seq<char> {
    "##\n## The classic default cow\n##\n        $thoughts   ^__^\n         $thoughts  ($eyes)\\\\_______\n            (__)\\\\       )\\\\/\\\\\n             $tongue ||----w |\n                ||     ||\nEOC\n"@
}

/// A smaller cow template.
pub open spec fn small_template() -> Seq<char> {
    "##\n## A smaller cow\n##\n  $thoughts   ^__^\n   $thoughts  ($eyes)\\\\___\n     (__)\\\\  )\\\\\n      $tongue ||-|| *\nEOC\n"@
}

/// The file names of the embedded templates, in table order.
pub open spec fn table_names() -> Seq<Seq<char>> {
    seq!["default.cow"@, "small.cow"@]
}

/// The template texts, in the same order as `table_names`.
pub open spec fn table_bodies() -> Seq<Seq<char>> {
    seq![default_template(), small_template()]
}

/// The body paired with the first matching name, searched front to back.
pub open spec fn spec_lookup(
    names: Seq<Seq<char>>,
    bodies: Seq<Seq<char>>,
    name: Seq<char>,
) -> Option<Seq<char>>
    decreases names.len(),
{
    if names.len() == 0 {
        None
    } else if names[0] == name {
        Some(bodies[0])
    } else {
        spec_lookup(names.drop_first(), bodies.drop_first(), name)
    }
}

/// Builds the compiled-in table: names and bodies, index-aligned.
fn table() -> (t: (Vec<String>, Vec<String>))
    ensures
        str_views(t.0@) == table_names(),
        str_views(t.1@) == table_bodies(),
        t.0@.len() == t.1@.len(),
{
    let mut names: Vec<String> = Vec::new();
    names.push(String::from_str("default.cow"));
    names.push(String::from_str("small.cow"));
    let mut bodies: Vec<String> = Vec::new();
    bodies.push(
        String::from_str(
            "##\n## The classic default cow\n##\n        $thoughts   ^__^\n         $thoughts  ($eyes)\\\\_______\n            (__)\\\\       )\\\\/\\\\\n             $tongue ||----w |\n                ||     ||\nEOC\n",
        ),
    );
    bodies.push(
        String::from_str(
            "##\n## A smaller cow\n##\n  $thoughts   ^__^\n   $thoughts  ($eyes)\\\\___\n     (__)\\\\  )\\\\\n      $tongue ||-|| *\nEOC\n",
        ),
    );
    proof {
        assert(str_views(names@) =~= table_names());
        assert(str_views(bodies@) =~= table_bodies());
    }
    (names, bodies)
}

/// Searches the names front to back and hands back a copy of the body that
/// sits beside the first match.
fn lookup_in(names: &Vec<String>, bodies: &Vec<String>, path: &str) -> (r: Option<String>)
    requires
        names@.len() == bodies@.len(),
    ensures
        match r {
            Some(b) => spec_lookup(str_views(names@), str_views(bodies@), path@) == Some(b@),
            None => spec_lookup(str_views(names@), str_views(bodies@), path@) is None,
        },
{
    let key = path.to_owned();
    let ghost ns = str_views(names@);
    let ghost bs = str_views(bodies@);
    let mut i: usize = 0;
    proof {
        assert(ns.skip(0) =~= ns);
        assert(bs.skip(0) =~= bs);
    }
    while i < names.len()
        invariant
            i <= names@.len(),
            names@.len() == bodies@.len(),
            key@ == path@,
            ns == str_views(names@),
            bs == str_views(bodies@),
            spec_lookup(ns, bs, path@) == spec_lookup(
                ns.skip(i as int),
                bs.skip(i as int),
                path@,
            ),
        decreases names@.len() - i,
    {
        if names[i] == key {
            let b = bodies[i].clone();
            proof {
                assert(ns.skip(i as int)[0] == ns[i as int]);
                assert(bs.skip(i as int)[0] == bs[i as int]);
                assert(ns[i as int] == names@[i as int]@);
                assert(bs[i as int] == bodies@[i as int]@);
            }
            return Some(b);
        }
        i = i + 1;
        proof {
            assert(ns.skip(i - 1)[0] == ns[i - 1]);
            assert(ns.skip(i - 1).drop_first() =~= ns.skip(i as int));
            assert(bs.skip(i - 1).drop_first() =~= bs.skip(i as int));
        }
    }
    proof {
        assert(ns.skip(i as int).len() == 0);
    }
    None
}

/// The embedded template store.
pub struct Assets {
    names: Vec<String>,
    bodies: Vec<String>,
}

impl Assets {
    /// The store holds exactly the compiled-in table.
    pub closed spec fn wf(&self) -> bool {
        &&& str_views(self.names@) == table_names()
        &&& str_views(self.bodies@) == table_bodies()
        &&& self.names@.len() == self.bodies@.len()
    }

    /// Builds the store.
    pub fn new() -> (a: Assets)
        ensures
            a.wf(),
    {
        let (names, bodies) = table();
        Assets { names, bodies }
    }

    /// Looks a template up by file name.
    pub fn lookup(&self, path: &str) -> (r: Option<String>)
        requires
            self.wf(),
        ensures
            match r {
                Some(b) => spec_lookup(table_names(), table_bodies(), path@) == Some(b@),
                None => spec_lookup(table_names(), table_bodies(), path@) is None,
            },
    {
        lookup_in(&self.names, &self.bodies, path)
    }
}

/// The template stored under the given file name, if any.
pub fn get(path: &str) -> (r: Option<String>)
    ensures
        match r {
            Some(b) => spec_lookup(table_names(), table_bodies(), path@) == Some(b@),
            None => spec_lookup(table_names(), table_bodies(), path@) is None,
        },
{
    let (names, bodies) = table();
    lookup_in(&names, &bodies, path)
}

/// The file names of every embedded template.
pub fn list() -> (r: Vec<String>)
    ensures
        str_views(r@) == table_names(),
{
    let (names, _bodies) = table();
    names
}

/// The suffix of `s` after its last slash; `s` itself when it holds none.
pub open spec fn basename(s: Seq<char>) -> Seq<char>
    decreases s.len(),
{
    proof {
        lemma_first_occ_bounds(s, '/');
    }
    let i = first_occ(s, '/') as int;
    if i == s.len() {
        s
    } else {
        basename(s.skip(i + 1))
    }
}

/// The template file extension.
pub open spec fn cow_ext() -> Seq<char> {
    seq!['.', 'c', 'o', 'w']
}

/// `s` with every occurrence of the template extension removed, scanning
/// left to right.
pub open spec fn remove_ext(s: Seq<char>) -> Seq<char>
    decreases s.len(),
{
    if s.len() == 0 {
        s
    } else if cow_ext().is_prefix_of(s) {
        remove_ext(s.skip(4))
    } else {
        seq![s[0]] + remove_ext(s.skip(1))
    }
}

/// The short figure name of a stored file name: any directory prefix
/// dropped, the extension removed.
pub open spec fn cow_name(s: Seq<char>) -> Seq<char> {
    remove_ext(basename(s))
}

/// The short names of a whole name list, in order.
pub open spec fn cow_names(ns: Seq<Seq<char>>) -> Seq<Seq<char>> {
    Seq::new(ns.len(), |i: int| cow_name(ns[i]))
}

/// The suffix after the last slash.
fn basename_exec(cs: &Vec<char>) -> (r: Vec<char>)
    ensures
        r@ == basename(cs@),
{
    let mut start: usize = 0;
    proof {
        assert(cs@.len() == cs.len());
        assert(cs@.skip(0) =~= cs@);
    }
    loop
        invariant_except_break
            start <= cs@.len(),
            cs@.len() <= usize::MAX,
            basename(cs@) == basename(cs@.skip(start as int)),
        ensures
            start <= cs@.len(),
            basename(cs@) == cs@.skip(start as int),
        decreases cs@.len() - start,
    {
        let mut j: usize = start;
        while j < cs.len() && cs[j] != '/'
            invariant
                start <= j <= cs@.len(),
                cs@.len() <= usize::MAX,
                forall|m: int| start <= m < j ==> cs@[m] != '/',
            decreases cs@.len() - j,
        {
            j = j + 1;
        }
        let ghost s1 = cs@.skip(start as int);
        let ghost k = (j - start) as nat;
        proof {
            assert forall|m: int| 0 <= m < k implies s1[m] != '/' by {
                assert(s1[m] == cs@[start + m]);
            }
            if j < cs.len() {
                assert(s1[k as int] == cs@[j as int]);
            }
            lemma_first_occ_is(s1, '/', k);
        }
        if j == cs.len() {
            proof {
                assert(basename(s1) == s1);
            }
            break ;
        }
        start = j + 1;
        proof {
            assert(basename(s1) == basename(s1.skip(k as int + 1)));
            assert(s1.skip(k as int + 1) =~= cs@.skip(start as int));
        }
    }
    copy_range(cs, start, cs.len())
}

/// `cs` with every occurrence of the extension removed.
fn remove_ext_exec(cs: &Vec<char>) -> (r: Vec<char>)
    ensures
        r@ == remove_ext(cs@),
{
    let mut pat: Vec<char> = Vec::new();
    pat.push('.');
    pat.push('c');
    pat.push('o');
    pat.push('w');
    proof {
        assert(pat@ =~= cow_ext());
    }
    let mut out: Vec<char> = Vec::new();
    let mut pos: usize = 0;
    proof {
        assert(cs@.skip(0) =~= cs@);
        assert(out@ + remove_ext(cs@) =~= remove_ext(cs@));
    }
    while pos < cs.len()
        invariant
            pos <= cs@.len(),
            pat@ == cow_ext(),
            remove_ext(cs@) == out@ + remove_ext(cs@.skip(pos as int)),
        decreases cs@.len() - pos,
    {
        let ghost s1 = cs@.skip(pos as int);
        let ghost prev = out@;
        if token_at(cs, pos, &pat) {
            pos = pos + 4;
            proof {
                assert(remove_ext(s1) == remove_ext(s1.skip(4)));
                assert(s1.skip(4) =~= cs@.skip(pos as int));
            }
        } else {
            let c = cs[pos];
            out.push(c);
            pos = pos + 1;
            proof {
                assert(s1[0] == c);
                assert(remove_ext(s1) == seq![c] + remove_ext(s1.skip(1)));
                assert(s1.skip(1) =~= cs@.skip(pos as int));
                assert(prev + (seq![c] + remove_ext(cs@.skip(pos as int))) =~= prev.push(c)
                    + remove_ext(cs@.skip(pos as int)));
            }
        }
    }
    proof {
        assert(cs@.skip(pos as int) =~= Seq::<char>::empty());
        assert(remove_ext(cs@.skip(pos as int)) == Seq::<char>::empty());
        assert(out@ + Seq::<char>::empty() =~= out@);
    }
    out
}

/// The short figure names, one per stored template, in table order.
pub fn list_cows() -> (r: Vec<Vec<char>>)
    ensures
        views(r@) == cow_names(table_names()),
{
    let (names, _bodies) = table();
    let mut r: Vec<Vec<char>> = Vec::new();
    let mut i: usize = 0;
    proof {
        assert(views(r@) =~= cow_names(table_names()).take(0));
    }
    while i < names.len()
        invariant
            i <= names@.len(),
            str_views(names@) == table_names(),
            views(r@) == cow_names(table_names()).take(i as int),
        decreases names@.len() - i,
    {
        let cs = chars_of(names[i].as_str());
        let b = basename_exec(&cs);
        let s = remove_ext_exec(&b);
        let ghost prev = views(r@);
        r.push(s);
        i = i + 1;
        proof {
            assert(cs@ == table_names()[i - 1]);
            assert(s@ == cow_name(table_names()[i - 1]));
            assert(views(r@) =~= prev.push(s@));
            assert(cow_names(table_names()).take(i as int) =~= prev.push(s@));
        }
    }
    proof {
        assert(cow_names(table_names()).take(names@.len() as int) =~= cow_names(table_names()));
    }
    r
}

} // verus!
