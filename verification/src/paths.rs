//! Data root layout. Paths are held as Unicode text with `/` separators;
//! joining a relative component follows `Path::join` on Unix.

use vstd::prelude::*;

use crate::chars::{decimal, extend_str, from_chars, push_decimal, to_chars};
use crate::normalize::{normalize_seq, normalize_text};
use crate::mem::views;
use crate::chars::str_eq;
use crate::hash::{hex_digest, hex_seq};
use sha1::Digest;
use sha1::Sha1;
use vstd::utf8::encode_utf8;

verus! {

broadcast use vstd::string::group_string_axioms;

/// `base.join(component)` for a relative `component`.
pub open spec fn path_join(base: Seq<char>, component: Seq<char>) -> Seq<char> {
    if base.len() == 0 {
        component
    } else if base.last() == '/' {
        base + component
    } else {
        base + seq!['/'] + component
    }
}

/// Joins a relative component onto a path.
pub fn join_path(base: &str, component: &str) -> (r: String)
    ensures
        r@ == path_join(base@, component@),
{
    let b = to_chars(base);
    let mut v = b.clone();
    if b.len() > 0 && b[b.len() - 1] != '/' {
        v.push('/');
    }
    extend_str(&mut v, component);
    proof {
        if b.len() > 0 {
            assert(b@.last() == b@[b.len() - 1]);
        }
    }
    assert(v@ =~= path_join(base@, component@));
    from_chars(&v)
}

/// The Engramark data root and the directories and files beneath it.
#[derive(Clone, Debug)]
pub struct Layout {
    pub home: String,
}

/// Zero-padded decimal of `id` to width four, sign included (`{id:04}`).
pub open spec fn pad4(id: int) -> Seq<char> {
    if id < 0 {
        let d = decimal((-id) as nat);
        seq!['-'] + Seq::new((if d.len() < 3 { 3 - d.len() } else { 0 }) as nat, |i: int| '0') + d
    } else {
        let d = decimal(id as nat);
        Seq::new((if d.len() < 4 { 4 - d.len() } else { 0 }) as nat, |i: int| '0') + d
    }
}

/// File name of the card with the given id.
pub open spec fn card_file_name(id: int) -> Seq<char> {
    pad4(id) + ".mem"@
}

impl Layout {
    pub fn cards(&self) -> (r: String)
        ensures
            r@ == path_join(self.home@, "cards"@),
    {
        join_path(self.home.as_str(), "cards")
    }

    pub fn candidates(&self) -> (r: String)
        ensures
            r@ == path_join(self.home@, "candidates"@),
    {
        join_path(self.home.as_str(), "candidates")
    }

    pub fn state(&self) -> (r: String)
        ensures
            r@ == path_join(self.home@, "state"@),
    {
        join_path(self.home.as_str(), "state")
    }

    pub fn transactions(&self) -> (r: String)
        ensures
            r@ == path_join(path_join(self.home@, "state"@), "transactions"@),
    {
        join_path(self.state().as_str(), "transactions")
    }

    pub fn locks(&self) -> (r: String)
        ensures
            r@ == path_join(path_join(self.home@, "state"@), "locks"@),
    {
        join_path(self.state().as_str(), "locks")
    }

    pub fn migration_backups(&self) -> (r: String)
        ensures
            r@ == path_join(path_join(self.home@, "state"@), "migration-backups"@),
    {
        join_path(self.state().as_str(), "migration-backups")
    }

    pub fn rollback_backups(&self) -> (r: String)
        ensures
            r@ == path_join(path_join(self.home@, "state"@), "rollback-backups"@),
    {
        join_path(self.state().as_str(), "rollback-backups")
    }

    pub fn install_backups(&self) -> (r: String)
        ensures
            r@ == path_join(path_join(self.home@, "state"@), "install-backups"@),
    {
        join_path(self.state().as_str(), "install-backups")
    }

    pub fn cache(&self) -> (r: String)
        ensures
            r@ == path_join(self.home@, "cache"@),
    {
        join_path(self.home.as_str(), "cache")
    }

    pub fn logs(&self) -> (r: String)
        ensures
            r@ == path_join(self.home@, "logs"@),
    {
        join_path(self.home.as_str(), "logs")
    }

    pub fn index(&self) -> (r: String)
        ensures
            r@ == path_join(path_join(self.home@, "cache"@), "memory.mcache"@),
    {
        join_path(self.cache().as_str(), "memory.mcache")
    }

    pub fn config(&self) -> (r: String)
        ensures
            r@ == path_join(self.home@, "engramark.json"@),
    {
        join_path(self.home.as_str(), "engramark.json")
    }

    pub fn id_sequence(&self) -> (r: String)
        ensures
            r@ == path_join(path_join(self.home@, "state"@), "id-sequence"@),
    {
        join_path(self.state().as_str(), "id-sequence")
    }

    pub fn feedback_state(&self) -> (r: String)
        ensures
            r@ == path_join(path_join(self.home@, "state"@), "feedback"@),
    {
        join_path(self.state().as_str(), "feedback")
    }

    pub fn card_path(&self, id: i64) -> (r: String)
        ensures
            r@ == path_join(path_join(self.home@, "cards"@), card_file_name(id as int)),
    {
        let mut name: Vec<char> = Vec::new();
        let mut digits: Vec<char> = Vec::new();
        let width: usize;
        if id < 0 {
            name.push('-');
            push_decimal(&mut digits, ((-(id + 1)) as u64) + 1);
            width = 3;
        } else {
            push_decimal(&mut digits, id as u64);
            width = 4;
        }
        let ghost prefix = name@;
        let mut pad: usize = 0;
        let target = if digits.len() < width { width - digits.len() } else { 0 };
        while pad < target
            invariant
                pad <= target,
                name@ == prefix + Seq::new(pad as nat, |i: int| '0'),
            decreases target - pad,
        {
            name.push('0');
            assert(prefix + Seq::new((pad + 1) as nat, |i: int| '0') =~= (prefix + Seq::new(pad as nat, |i: int| '0')).push('0'));
            pad = pad + 1;
        }
        let ghost padded = name@;
        let mut i: usize = 0;
        while i < digits.len()
            invariant
                i <= digits.len(),
                name@ == padded + digits@.take(i as int),
            decreases digits.len() - i,
        {
            name.push(digits[i]);
            assert(padded + digits@.take(i + 1) =~= (padded + digits@.take(i as int)).push(digits@[i as int]));
            i = i + 1;
        }
        extend_str(&mut name, ".mem");
        proof {
            assert(digits@.take(digits.len() as int) =~= digits@);
            if id < 0 {
                assert(((-(id + 1)) as u64) + 1 == -id);
                assert(name@ =~= card_file_name(id as int));
            } else {
                assert(name@ =~= card_file_name(id as int));
            }
        }
        let file_name = from_chars(&name);
        join_path(self.cards().as_str(), file_name.as_str())
    }
}

/// `~` and `~/rest` expanded against the user home `home`.
pub open spec fn expand_user_seq(value: Seq<char>, home: Seq<char>) -> Seq<char> {
    if value == "~"@ {
        home
    } else if value.len() >= 2 && value[0] == '~' && value[1] == '/' {
        path_join(home, value.skip(2))
    } else {
        value
    }
}

/// pathlib `expanduser` for a leading `~` component, given the user home.
pub fn expand_user(value: &str, home: &str) -> (r: String)
    ensures
        r@ == expand_user_seq(value@, home@),
{
    let v = to_chars(value);
    proof {
        reveal_strlit("~");
    }
    if v.len() == 1 && v[0] == '~' {
        assert(value@ =~= "~"@);
        return String::from_str(home);
    }
    assert(value@ != "~"@);
    if v.len() >= 2 && v[0] == '~' && v[1] == '/' {
        let mut rest: Vec<char> = Vec::new();
        let mut i: usize = 2;
        while i < v.len()
            invariant
                2 <= i <= v.len(),
                rest@ == v@.subrange(2, i as int),
            decreases v.len() - i,
        {
            rest.push(v[i]);
            assert(v@.subrange(2, i as int).push(v@[i as int]) =~= v@.subrange(2, i + 1));
            i = i + 1;
        }
        assert(rest@ =~= v@.skip(2));
        let rest_text = from_chars(&rest);
        return join_path(home, rest_text.as_str());
    }
    String::from_str(value)
}

/// The comparison key of a project or scope name.
pub fn normalize_for_match(value: &str) -> (r: String)
    ensures
        r@ == normalize_seq(value@),
{
    normalize_text(value)
}


/// `path` lies in `home`: equal to it, or below it by whole components.
pub open spec fn within(path: Seq<char>, home: Seq<char>) -> bool {
    home.len() == 0 || path == home || (home.last() == '/' && crate::chars::is_prefix(path, home))
        || crate::chars::is_prefix(path, home + seq!['/'])
}

/// The components of `path` below `home`, joined by `/`.
pub open spec fn below(path: Seq<char>, home: Seq<char>) -> Seq<char> {
    if home.len() == 0 {
        path
    } else if path == home {
        Seq::empty()
    } else if home.last() == '/' {
        path.skip(home.len() as int)
    } else {
        path.skip(home.len() as int + 1)
    }
}

/// `s` with every `\` replaced by `/`.
pub open spec fn forward_slashes(s: Seq<char>) -> Seq<char> {
    s.map_values(|c: char| if c == '\\' { '/' } else { c })
}

/// The path of a file of the data root relative to it, with `/`
/// separators.
pub fn relative_path(layout: &Layout, path: &str) -> (r: String)
    requires
        within(path@, layout.home@),
    ensures
        r@ == forward_slashes(below(path@, layout.home@)),
{
    let p = to_chars(path);
    let h = to_chars(layout.home.as_str());
    let pl = p.len();
    let start: usize = if h.len() == 0 {
        0
    } else if crate::chars::chars_eq(&p, &h) {
        p.len()
    } else if h[h.len() - 1] == '/' {
        h.len()
    } else {
        proof {
            assert(h@.last() == h@[h@.len() - 1]);
            assert(crate::chars::is_prefix(p@, h@ + seq!['/']));
            assert((h@ + seq!['/']).len() <= p@.len());
            assert(h.len() + 1 <= pl);
        }
        h.len() + 1
    };
    proof {
        if h@.len() > 0 {
            assert(h@.last() == h@[h@.len() - 1]);
            if p@ != h@ && h@.last() != '/' {
                assert(crate::chars::is_prefix(p@, h@ + seq!['/']));
            }
            if p@ == h@ {
                assert(p@.skip(p@.len() as int) =~= Seq::<char>::empty());
            }
        }
    }
    let mut out: Vec<char> = Vec::new();
    let mut i = start;
    while i < p.len()
        invariant
            start <= i <= p.len(),
            out@ == forward_slashes(p@.subrange(start as int, i as int)),
        decreases p.len() - i,
    {
        let c = p[i];
        out.push(if c == '\\' { '/' } else { c });
        assert(p@.subrange(start as int, i + 1) =~= p@.subrange(start as int, i as int).push(c));
        assert(out@ =~= forward_slashes(p@.subrange(start as int, i + 1)));
        i = i + 1;
    }
    assert(p@.subrange(start as int, p.len() as int) =~= p@.skip(start as int));
    from_chars(&out)
}

/// The position of the last `/` in `p`, if any.
pub open spec fn last_slash(p: Seq<char>) -> Option<int>
    decreases p.len(),
{
    if p.len() == 0 {
        None
    } else if p.last() == '/' {
        Some(p.len() - 1)
    } else {
        last_slash(p.drop_last())
    }
}

/// The parent of an absolute path without trailing or repeated
/// separators (`Path::parent`): none for `/`.
pub open spec fn parent_of(p: Seq<char>) -> Option<Seq<char>> {
    if p.len() <= 1 {
        None
    } else {
        match last_slash(p) {
            None => None,
            Some(k) => if k == 0 {
                Some(seq!['/'])
            } else {
                Some(p.take(k))
            },
        }
    }
}

/// `p`, its parent, its parent's parent, and so on.
pub open spec fn ancestors_of(p: Seq<char>) -> Seq<Seq<char>>
    decreases p.len(),
{
    match parent_of(p) {
        None => seq![p],
        Some(q) => if q.len() < p.len() {
            seq![p] + ancestors_of(q)
        } else {
            seq![p]
        },
    }
}

proof fn lemma_last_slash(p: Seq<char>)
    ensures
        last_slash(p) matches Some(k) ==> 0 <= k < p.len() && p[k] == '/' && forall|j: int| k < j < p.len() ==> p[j]
            != '/',
        last_slash(p) is None ==> forall|j: int| 0 <= j < p.len() ==> p[j] != '/',
    decreases p.len(),
{
    if p.len() > 0 {
        if p.last() != '/' {
            let q = p.drop_last();
            lemma_last_slash(q);
            assert forall|j: int| 0 <= j < q.len() implies q[j] == p[j] by {}
            assert(p[p.len() - 1] == p.last());
        } else {
            assert(p[p.len() - 1] == '/');
        }
    }
}

/// The position of the last `/` of `v`.
fn find_last_slash(v: &[char]) -> (r: Option<usize>)
    ensures
        match last_slash(v@) {
            Some(k) => r == Some(k as usize),
            None => r is None,
        },
{
    let mut i = v.len();
    assert(v@.take(v.len() as int) =~= v@);
    while i > 0 && v[i - 1] != '/'
        invariant
            i <= v.len(),
            last_slash(v@) == last_slash(v@.take(i as int)),
        decreases i,
    {
        assert(v@.take(i as int).drop_last() =~= v@.take(i - 1));
        i = i - 1;
    }
    assert(v@.take(v.len() as int) =~= v@);
    if i == 0 {
        assert(v@.take(0) =~= Seq::<char>::empty());
        None
    } else {
        assert(v@.take(i as int).last() == v@[i - 1]);
        Some(i - 1)
    }
}

/// The ancestors of a path, from the path itself to the root.
pub fn ancestors(path: &str) -> (r: Vec<String>)
    ensures
        views(r@) == ancestors_of(path@),
{
    let mut cur = to_chars(path);
    let ghost start = cur@;
    let mut out: Vec<String> = Vec::new();
    let mut done = false;
    while !done
        invariant
            done ==> views(out@) == ancestors_of(start),
            !done ==> views(out@) + ancestors_of(cur@) == ancestors_of(start),
        decreases cur@.len() * 2 + (if done {
            0int
        } else {
            1int
        }),
    {
        let ghost before = views(out@);
        out.push(from_chars(&cur));
        assert(views(out@) =~= before.push(cur@));
        proof {
            lemma_last_slash(cur@);
        }
        let parent = if cur.len() <= 1 {
            None
        } else {
            match find_last_slash(&cur) {
                None => None,
                Some(k) => {
                    if k == 0 {
                        let mut root: Vec<char> = Vec::new();
                        root.push('/');
                        Some(root)
                    } else {
                        Some(crate::chars::slice_chars(&cur, 0, k))
                    }
                },
            }
        };
        match parent {
            Some(q) => {
                if q.len() < cur.len() {
                    assert(q@ =~= parent_of(cur@).unwrap());
                    assert(ancestors_of(cur@) == seq![cur@] + ancestors_of(q@));
                    assert(views(out@) + ancestors_of(q@) =~= before + ancestors_of(cur@));
                    cur = q;
                } else {
                    assert(ancestors_of(cur@) == seq![cur@]);
                    assert(views(out@) =~= before + ancestors_of(cur@));
                    done = true;
                }
            },
            None => {
                assert(parent_of(cur@) is None);
                assert(views(out@) =~= before + ancestors_of(cur@));
                done = true;
            },
        }
    }
    out
}

/// The first of the `anc` (from index `i`) that holds a project marker,
/// stopping at a broad directory.
pub open spec fn marked_root(anc: Seq<Seq<char>>, marked: Seq<bool>, broad: Seq<Seq<char>>, i: int) -> Option<Seq<char>>
    decreases anc.len() - i,
{
    if i < 0 || i >= anc.len() || broad.contains(anc[i]) {
        None
    } else if i < marked.len() && marked[i] {
        Some(anc[i])
    } else {
        marked_root(anc, marked, broad, i + 1)
    }
}

/// The project directory of a resolved path: none when it is not a
/// directory, is a broad directory, or lies in the data directory or the
/// program directory; else the nearest ancestor (itself included, below any
/// broad directory) that holds a project marker, or, when authoritative, the
/// path itself.
pub open spec fn project_root_of(
    path: Seq<char>,
    is_dir: bool,
    broad: Seq<Seq<char>>,
    data_home: Seq<char>,
    program_root: Option<Seq<char>>,
    marked: Seq<bool>,
    authoritative: bool,
) -> Option<Seq<char>> {
    if !is_dir || broad.contains(path) {
        None
    } else if path == data_home || within(path, data_home) {
        None
    } else if program_root matches Some(r) && (path == r || within(path, r)) {
        None
    } else {
        match marked_root(ancestors_of(path), marked, broad, 0) {
            Some(d) => Some(d),
            None => if authoritative {
                Some(path)
            } else {
                None
            },
        }
    }
}

/// Whether `x` is one of the strings.
fn listed_path(list: &Vec<String>, x: &str) -> (r: bool)
    ensures
        r == views(list@).contains(x@),
{
    let mut i: usize = 0;
    while i < list.len()
        invariant
            i <= list@.len(),
            forall|k: int| 0 <= k < i ==> list@[k]@ != x@,
        decreases list.len() - i,
    {
        if crate::chars::str_eq(list[i].as_str(), x) {
            assert(views(list@)[i as int] == x@);
            return true;
        }
        i = i + 1;
    }
    proof {
        if views(list@).contains(x@) {
            let k = choose|k: int| 0 <= k < views(list@).len() && views(list@)[k] == x@;
            assert(list@[k]@ == x@);
        }
    }
    false
}

/// Whether `path` lies in `home`.
fn is_within(path: &str, home: &str) -> (r: bool)
    ensures
        r == within(path@, home@),
{
    let p = to_chars(path);
    let h = to_chars(home);
    if h.len() == 0 || crate::chars::chars_eq(&p, &h) {
        return true;
    }
    if h[h.len() - 1] == '/' && crate::chars::starts_with(&p, &h) {
        assert(h@.last() == h@[h@.len() - 1]);
        return true;
    }
    let mut hs = to_chars(home);
    hs.push('/');
    assert(hs@ =~= h@ + seq!['/']);
    proof {
        assert(h@.last() == h@[h@.len() - 1]);
    }
    crate::chars::starts_with(&p, &hs)
}

/// The path itself when authoritative, else none.
fn authoritative_root(authoritative: bool, path: &str) -> (r: Option<String>)
    ensures
        authoritative ==> (r matches Some(x) && x@ == path@),
        !authoritative ==> r is None,
{
    if authoritative {
        Some(String::from_str(path))
    } else {
        None
    }
}

/// The project directory of a resolved path, given whether it is a
/// directory, the broad directories, the data and program directories, and
/// which of its `ancestors` hold a project marker.
pub fn project_directory(
    path: &str,
    is_dir: bool,
    broad: &Vec<String>,
    data_home: &str,
    program_root: Option<&str>,
    marked: &Vec<bool>,
    authoritative: bool,
) -> (r: Option<String>)
    ensures
        match project_root_of(
            path@,
            is_dir,
            views(broad@),
            data_home@,
            match program_root {
                Some(x) => Some(x@),
                None => None,
            },
            marked@,
            authoritative,
        ) {
            Some(d) => r matches Some(x) && x@ == d,
            None => r is None,
        },
{
    if !is_dir || listed_path(broad, path) {
        return None;
    }
    if crate::chars::str_eq(path, data_home) || is_within(path, data_home) {
        return None;
    }
    if let Some(root) = program_root {
        if crate::chars::str_eq(path, root) || is_within(path, root) {
            return None;
        }
    }
    let anc = ancestors(path);
    let ghost av = views(anc@);
    let ghost pr = match program_root {
        Some(x) => Some(x@),
        None => None,
    };
    let ghost expected = project_root_of(path@, is_dir, views(broad@), data_home@, pr, marked@, authoritative);
    assert(expected == match marked_root(av, marked@, views(broad@), 0) {
        Some(d) => Some(d),
        None => if authoritative {
            Some(path@)
        } else {
            None
        },
    });
    let mut i: usize = 0;
    while i < anc.len()
        invariant
            i <= anc@.len(),
            av == views(anc@),
            expected == project_root_of(path@, is_dir, views(broad@), data_home@, pr, marked@, authoritative),
            pr == match program_root {
                Some(x) => Some(x@),
                None => None,
            },
            expected == match marked_root(av, marked@, views(broad@), 0) {
                Some(d) => Some(d),
                None => if authoritative {
                    Some(path@)
                } else {
                    None
                },
            },
            marked_root(av, marked@, views(broad@), i as int) == marked_root(av, marked@, views(broad@), 0),
        decreases anc.len() - i,
    {
        assert(av[i as int] == anc@[i as int]@);
        if listed_path(broad, anc[i].as_str()) {
            return authoritative_root(authoritative, path);
        }
        if i < marked.len() && marked[i] {
            return Some(anc[i].clone());
        }
        i = i + 1;
    }
    authoritative_root(authoritative, path)
}


proof fn lemma_marked_root_not_broad(anc: Seq<Seq<char>>, marked: Seq<bool>, broad: Seq<Seq<char>>, i: int)
    ensures
        marked_root(anc, marked, broad, i) matches Some(d) ==> !broad.contains(d),
    decreases anc.len() - i,
{
    if !(i < 0 || i >= anc.len() || broad.contains(anc[i])) && !(i < marked.len() && marked[i]) {
        lemma_marked_root_not_broad(anc, marked, broad, i + 1);
    }
}

/// Broad directories are never projects, and a directory in the data or
/// program directory has no project of its own: a project directory found
/// is never one of the broad directories, and when it is the path itself it
/// lies outside the data and program directories.
pub proof fn law_broad_directories_are_not_projects(
    path: Seq<char>,
    is_dir: bool,
    broad: Seq<Seq<char>>,
    data_home: Seq<char>,
    program_root: Option<Seq<char>>,
    marked: Seq<bool>,
    authoritative: bool,
)
    ensures
        project_root_of(path, is_dir, broad, data_home, program_root, marked, authoritative) matches Some(d) ==> {
            &&& !broad.contains(d)
            &&& !within(path, data_home)
            &&& (program_root matches Some(r) ==> !within(path, r))
        },
{
    lemma_marked_root_not_broad(ancestors_of(path), marked, broad, 0);
}

/// The SHA-1 digest of `data`.
pub uninterp spec fn sha1_of(data: Seq<u8>) -> Seq<u8>;

/// `sha1::Sha1::digest` of `data`. Claimed of the result: it is the named
/// digest, 20 bytes long.
#[verifier::external_body]
fn sha1_digest(data: &[u8]) -> (r: Vec<u8>)
    ensures
        r@ == sha1_of(data@),
        r@.len() == 20,
{
    Sha1::digest(data).to_vec()
}

/// `std::path::Path::file_name` of a path text. The full answer follows
/// the platform's separators and is not stated; what is claimed holds on
/// every platform: a name is non-empty, holds no `/`, and occurs in the
/// path.
#[verifier::external_body]
fn path_file_name(path: &str) -> (r: Option<String>)
    ensures
        r matches Some(n) ==> n@.len() > 0 && !n@.contains('/') && crate::chars::contains_seq(path@, n@),
{
    match std::path::Path::new(path).file_name() {
        Some(n) => match n.to_str() {
            Some(t) => Some(t.to_string()),
            None => None,
        },
        None => None,
    }
}

/// The id of a project directory, given its resolved path text, the name
/// of its last component (if any) and the broad directories: `global` for a
/// broad directory, else the name (`project` without one), a hyphen and the
/// first six hex digits of the SHA-1 of the path.
pub open spec fn project_id_seq(path: Seq<char>, name: Option<Seq<char>>, broad: Seq<Seq<char>>) -> Seq<char> {
    if broad.contains(path) {
        "global"@
    } else {
        let n = match name {
            Some(x) => x,
            None => "project"@,
        };
        n + seq!['-'] + hex_seq(sha1_of(encode_utf8(path)).take(3))
    }
}

/// The id of a project directory, given the name of its last component.
pub fn project_id_from(resolved: &str, name: Option<&str>, broad: &[String]) -> (r: String)
    ensures
        r@ == project_id_seq(resolved@, match name {
            Some(x) => Some(x@),
            None => None,
        }, views(broad@)),
{
    let mut i: usize = 0;
    while i < broad.len()
        invariant
            i <= broad.len(),
            forall|k: int| 0 <= k < i ==> views(broad@)[k] != resolved@,
        decreases broad.len() - i,
    {
        if str_eq(broad[i].as_str(), resolved) {
            assert(views(broad@)[i as int] == resolved@);
            return from_chars(&to_chars("global"));
        }
        i = i + 1;
    }
    assert(!views(broad@).contains(resolved@));
    let digest = sha1_digest(resolved.as_bytes());
    let mut short: Vec<u8> = Vec::new();
    short.push(digest[0]);
    short.push(digest[1]);
    short.push(digest[2]);
    assert(short@ =~= digest@.take(3));
    let hex = hex_digest(&short);
    let mut v = match name {
        Some(n) => to_chars(n),
        None => to_chars("project"),
    };
    v.push('-');
    extend_str(&mut v, hex.as_str());
    from_chars(&v)
}

/// The id of a project directory, given its resolved path text and the
/// broad directories. The name is the path's last component as the
/// platform reads it; whatever that is, the id has the shape of
/// `project_id_seq`.
pub fn project_id_of(resolved: &str, broad: &[String]) -> (r: String)
    ensures
        exists|name: Option<Seq<char>>| r@ == #[trigger] project_id_seq(resolved@, name, views(broad@)),
        views(broad@).contains(resolved@) ==> r@ == "global"@,
{
    let name = path_file_name(resolved);
    let r = match &name {
        Some(n) => project_id_from(resolved, Some(n.as_str()), broad),
        None => project_id_from(resolved, None, broad),
    };
    proof {
        let nv: Option<Seq<char>> = match name {
            Some(n) => Some(n@),
            None => None,
        };
        assert(r@ == project_id_seq(resolved@, nv, views(broad@)));
    }
    r
}

/// Whether a working directory stands for no project: none given, empty,
/// or the word `global`.
pub open spec fn global_cwd_seq(cwd: Option<Seq<char>>) -> bool {
    match cwd {
        None => true,
        Some(c) => c.len() == 0 || c == "global"@,
    }
}

/// Whether a working directory stands for no project (its id is then
/// `global` without looking at the disk).
pub fn is_global_cwd(cwd: Option<&str>) -> (r: bool)
    ensures
        r == global_cwd_seq(match cwd {
            Some(c) => Some(c@),
            None => None,
        }),
{
    match cwd {
        None => true,
        Some(c) => c.unicode_len() == 0 || crate::chars::str_eq(c, "global"),
    }
}

} // verus!
