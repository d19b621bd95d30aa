//! Radar hits and scope rules.

use vstd::prelude::*;

use std::time::Instant;

use crate::chars::{chars_eq, extend_str, str_eq, to_chars};
use crate::mem::views;
use crate::normalize::{normalize_seq, normalize_text};
use crate::Error;

pub mod aho;
pub mod automaton;
pub mod blob;
pub mod compile;
pub mod decode;
pub mod hits;
pub mod source;

verus! {

broadcast use vstd::string::group_string_axioms;

/// A card referenced by a radar anchor.
#[derive(Clone, Debug, PartialEq)]
pub struct RadarCardRef {
    pub id: i64,
    pub strong: bool,
    pub kind: String,
    pub manual: bool,
    pub scope: String,
}

/// The cards sharing one normalized anchor, and its display text.
#[derive(Clone, Debug)]
pub struct RadarBucket {
    pub display: String,
    pub cards: Vec<RadarCardRef>,
}

/// A radar hit for one card.
#[derive(Clone, Debug)]
pub struct RadarHit {
    pub anchor: String,
    pub entity: String,
    pub id: i64,
    pub strong: bool,
    pub kind: String,
    pub manual: bool,
    pub scope: String,
}

impl RadarHit {
    /// `"strong"` or `"weak"`.
    pub fn strength(&self) -> (r: &'static str)
        ensures
            self.strong ==> r@ == "strong"@,
            !self.strong ==> r@ == "weak"@,
    {
        if self.strong {
            "strong"
        } else {
            "weak"
        }
    }
}

/// Visibility of a card scope from a project: global (or empty) scopes are
/// always visible; without a known project nothing else is; otherwise the
/// normalized scope must name the normalized project, bare or as
/// `project:<name>`.
pub open spec fn scope_visible_seq(card_scope: Seq<char>, project: Seq<char>) -> bool {
    let s = normalize_seq(card_scope);
    if s.len() == 0 || s == "global"@ {
        true
    } else if project.len() == 0 || project == "global"@ {
        false
    } else {
        s == normalize_seq(project) || s == "project:"@ + normalize_seq(project)
    }
}

/// Whether a card with scope `card_scope` is visible from `project`.
pub fn scope_visible(card_scope: &str, project: &str) -> (r: bool)
    ensures
        r == scope_visible_seq(card_scope@, project@),
{
    let scope_norm = normalize_text(card_scope);
    if scope_norm.unicode_len() == 0 || str_eq(scope_norm.as_str(), "global") {
        return true;
    }
    if project.unicode_len() == 0 || str_eq(project, "global") {
        return false;
    }
    let project_norm = normalize_text(project);
    if scope_norm == project_norm {
        return true;
    }
    let mut prefixed: Vec<char> = Vec::new();
    extend_str(&mut prefixed, "project:");
    extend_str(&mut prefixed, project_norm.as_str());
    let sv = to_chars(scope_norm.as_str());
    chars_eq(&sv, &prefixed)
}

/// Isolation law: with no known project, only global (or unscoped) cards
/// are visible.
pub proof fn law_unknown_project_sees_only_global(card_scope: Seq<char>)
    ensures
        scope_visible_seq(card_scope, Seq::empty()) ==> (normalize_seq(card_scope).len() == 0
            || normalize_seq(card_scope) == "global"@),
        scope_visible_seq(card_scope, "global"@) ==> (normalize_seq(card_scope).len() == 0
            || normalize_seq(card_scope) == "global"@),
{
}

/// Isolation law: a global card is visible from every project.
pub proof fn law_global_visible_everywhere(project: Seq<char>)
    requires
        normalize_seq("global"@) == "global"@,
    ensures
        scope_visible_seq("global"@, project),
{
}

/// Isolation law: a card scoped to one project is hidden from another
/// project whose normalized name differs.
pub proof fn law_other_project_hidden(name: Seq<char>, project: Seq<char>)
    requires
        normalize_seq("project:"@ + name) == "project:"@ + normalize_seq(name),
        normalize_seq(name) != normalize_seq(project),
        !("project:"@ + normalize_seq(name) == normalize_seq(project)),
    ensures
        !scope_visible_seq("project:"@ + name, project),
{
    reveal_strlit("global");
    reveal_strlit("project:");
    let s = "project:"@ + normalize_seq(name);
    assert(s.len() > 0);
    assert(s[0] == 'p');
    if s == "global"@ {
        assert(s[0] == "global"@[0]);
    }
    if s == "project:"@ + normalize_seq(project) {
        assert(s.skip(8) =~= normalize_seq(name));
        assert(("project:"@ + normalize_seq(project)).skip(8) =~= normalize_seq(project));
    }
}


/// A point in time by the monotonic clock.
#[verifier::external_type_specification]
#[verifier::external_body]
pub struct ExInstant(Instant);

/// Whether `Instant::now()` is at or past `deadline`. Nothing is claimed of
/// the answer: it depends on the clock.
#[verifier::external_body]
pub(crate) fn deadline_passed(deadline: &Instant) -> bool {
    Instant::now() >= *deadline
}

/// The keyword automaton: per state, the transitions in insertion order,
/// the words reported there, and the failure link.
#[derive(Clone, Debug, Default)]
pub struct AhoCorasick {
    pub goto: Vec<Vec<(char, u32)>>,
    pub out: Vec<Vec<String>>,
    pub fail: Vec<u32>,
}

/// The first transition on `ch` in a row of transitions.
pub open spec fn find_key(row: Seq<(char, u32)>, ch: char) -> Option<u32>
    decreases row.len(),
{
    if row.len() == 0 {
        None
    } else if row[0].0 == ch {
        Some(row[0].1)
    } else {
        find_key(row.drop_first(), ch)
    }
}

impl AhoCorasick {
    /// Equal table lengths, a root state, and every target a state.
    pub open spec fn shaped(&self) -> bool {
        let n = self.goto@.len();
        &&& n > 0
        &&& self.out@.len() == n
        &&& self.fail@.len() == n
        &&& forall|a: int, k: int| 0 <= a < n && 0 <= k < self.goto@[a]@.len() ==> (#[trigger] self.goto@[a]@[k]).1 < n
        &&& forall|a: int| 0 <= a < n ==> #[trigger] self.fail@[a] < n
    }

    /// `r` ranks the states so that every failure link of a non-root state
    /// goes to a lower rank, and the root fails to itself.
    pub open spec fn ranked_by(&self, r: Seq<nat>) -> bool {
        &&& r.len() == self.goto@.len()
        &&& self.fail@[0] == 0
        &&& forall|a: int| 1 <= a < r.len() ==> r[self.fail@[a] as int] < #[trigger] r[a]
    }

    /// A shaped automaton whose failure links reach the root.
    pub open spec fn well_formed(&self) -> bool {
        self.shaped() && exists|r: Seq<nat>| self.ranked_by(r)
    }

    /// A ranking of the states, for a well-formed automaton.
    pub open spec fn rank(&self) -> Seq<nat> {
        choose|r: Seq<nat>| self.ranked_by(r)
    }

    /// The transition on `ch` from `node`, if any.
    pub open spec fn trans(&self, node: int, ch: char) -> Option<u32> {
        find_key(self.goto@[node]@, ch)
    }

    /// The state reached from `node` by failure links until one has a
    /// transition on `ch` or the root is reached.
    pub open spec fn chase(&self, node: int, ch: char) -> int
        decreases self.rank()[node],
        when self.well_formed() && 0 <= node < self.goto@.len()
    {
        if node == 0 || self.trans(node, ch) is Some {
            node
        } else {
            self.chase(self.fail@[node] as int, ch)
        }
    }

    /// One step of the automaton on `ch` from `node`.
    pub open spec fn step(&self, node: int, ch: char) -> int {
        match self.trans(self.chase(node, ch), ch) {
            Some(next) => next as int,
            None => 0,
        }
    }

    /// The state after the first `i` characters of `text`.
    pub open spec fn state_after(&self, text: Seq<char>, i: nat) -> int
        decreases i,
    {
        if i == 0 {
            0
        } else {
            self.step(self.state_after(text, (i - 1) as nat), text[i - 1])
        }
    }

    /// The words reported at the states visited while reading the first
    /// `i` characters of `text`.
    pub open spec fn found_within(&self, text: Seq<char>, i: nat) -> Set<Seq<char>> {
        Set::new(
            |w: Seq<char>|
                exists|j: int|
                    1 <= j <= i && views(self.out@[#[trigger] self.state_after(text, j as nat)]@).contains(w),
        )
    }
}

/// Whether `v` already holds `w`.
fn holds_word(v: &Vec<String>, w: &str) -> (r: bool)
    ensures
        r == views(v@).contains(w@),
{
    let mut i: usize = 0;
    while i < v.len()
        invariant
            i <= v.len(),
            forall|k: int| 0 <= k < i ==> v@[k]@ != w@,
        decreases v.len() - i,
    {
        if str_eq(v[i].as_str(), w) {
            assert(views(v@)[i as int] == w@);
            return true;
        }
        i = i + 1;
    }
    proof {
        if views(v@).contains(w@) {
            let k = choose|k: int| 0 <= k < views(v@).len() && views(v@)[k] == w@;
            assert(v@[k]@ == w@);
        }
    }
    false
}

impl AhoCorasick {
    /// The first transition on `ch` from `node`.
    fn transition(&self, node: u32, ch: char) -> (r: Option<u32>)
        requires
            self.shaped(),
            node < self.goto@.len(),
        ensures
            r == self.trans(node as int, ch),
            r matches Some(n) ==> n < self.goto@.len(),
    {
        let row = &self.goto[node as usize];
        let mut k: usize = 0;
        assert(row@.skip(0) =~= row@);
        while k < row.len()
            invariant
                self.shaped(),
                node < self.goto@.len(),
                row@ == self.goto@[node as int]@,
                k <= row.len(),
                find_key(row@.skip(k as int), ch) == self.trans(node as int, ch),
            decreases row.len() - k,
        {
            assert(row@.skip(k as int)[0] == row@[k as int]);
            if row[k].0 == ch {
                assert(row@[k as int].1 < self.goto@.len());
                return Some(row[k].1);
            }
            assert(row@.skip(k as int).drop_first() =~= row@.skip(k + 1));
            k = k + 1;
        }
        None
    }

    /// The words found in `text`, each once; an error when `deadline`
    /// passes first.
    pub fn scan(&self, text: &str, deadline: Option<Instant>) -> (r: crate::Result<Vec<String>>)
        requires
            self.well_formed(),
        ensures
            r matches Ok(found) ==> views(found@).no_duplicates() && views(found@).to_set() == self.found_within(
                text@,
                text@.len(),
            ),
            r matches Err(e) ==> e is HookDeadlineExceeded && deadline is Some,
            text@.len() == 0 ==> r is Ok,
    {
        let chars = to_chars(text);
        let ghost rank = self.rank();
        let mut node: u32 = 0;
        let mut found: Vec<String> = Vec::new();
        let mut index: usize = 0;
        while index < chars.len()
            invariant
                self.well_formed(),
                rank == self.rank(),
                chars@ == text@,
                index <= chars.len(),
                node < self.goto@.len(),
                node == self.state_after(text@, index as nat),
                views(found@).no_duplicates(),
                views(found@).to_set() == self.found_within(text@, index as nat),
            decreases chars.len() - index,
        {
            let ch = chars[index];
            if index % 64 == 0 {
                if let Some(d) = &deadline {
                    if deadline_passed(d) {
                        return Err(Error::HookDeadlineExceeded);
                    }
                }
            }
            let mut cur = node;
            while cur != 0 && self.transition(cur, ch).is_none()
                invariant
                    self.well_formed(),
                    rank == self.rank(),
                    cur < self.goto@.len(),
                    node < self.goto@.len(),
                    self.chase(cur as int, ch) == self.chase(node as int, ch),
                    text@.len() > 0,
                decreases rank[cur as int],
            {
                if let Some(d) = &deadline {
                    if deadline_passed(d) {
                        return Err(Error::HookDeadlineExceeded);
                    }
                }
                cur = self.fail[cur as usize];
            }
            let next = match self.transition(cur, ch) {
                Some(n) => n,
                None => 0,
            };
            let ghost before = views(found@);
            let words = &self.out[next as usize];
            let mut k: usize = 0;
            while k < words.len()
                invariant
                    k <= words.len(),
                    words@ == self.out@[next as int]@,
                    views(found@).no_duplicates(),
                    views(found@).to_set() == before.to_set().union(views(words@).take(k as int).to_set()),
                decreases words.len() - k,
            {
                let ghost prev = views(found@);
                if !holds_word(&found, words[k].as_str()) {
                    found.push(words[k].clone());
                    assert(views(found@) =~= prev.push(words@[k as int]@));
                }
                assert(views(words@).take(k + 1) =~= views(words@).take(k as int).push(words@[k as int]@));
                assert(views(found@).contains(words@[k as int]@)) by {
                    if prev.contains(words@[k as int]@) {
                        let j = choose|j: int| 0 <= j < prev.len() && prev[j] == words@[k as int]@;
                        assert(views(found@)[j] == words@[k as int]@);
                    } else {
                        assert(views(found@)[views(found@).len() - 1] == words@[k as int]@);
                    }
                }
                assert forall|w: Seq<char>| views(found@).to_set().contains(w) == before.to_set().union(
                    views(words@).take(k + 1).to_set(),
                ).contains(w) by {
                    let tk = views(words@).take(k as int);
                    let tk1 = views(words@).take(k + 1);
                    assert(prev.to_set().contains(w) == (before.to_set().contains(w) || tk.to_set().contains(w)));
                    assert(prev.to_set().contains(w) == prev.contains(w));
                    assert(tk.to_set().contains(w) == tk.contains(w));
                    assert(tk1.to_set().contains(w) == tk1.contains(w));
                    assert(before.to_set().contains(w) == before.contains(w));
                    assert(views(found@).to_set().contains(w) == views(found@).contains(w));
                    let x = words@[k as int]@;
                    assert(tk1[k as int] == x);
                    if tk1.contains(w) {
                        let j = choose|j: int| 0 <= j < tk1.len() && tk1[j] == w;
                        if j < k {
                            assert(tk[j] == w);
                        }
                    }
                    if tk.contains(w) {
                        let j = choose|j: int| 0 <= j < tk.len() && tk[j] == w;
                        assert(tk1[j] == w);
                    }
                    assert(tk1.contains(w) == (tk.contains(w) || w == x));
                    if views(found@).contains(w) && !prev.contains(w) {
                        let j = choose|j: int| 0 <= j < views(found@).len() && views(found@)[j] == w;
                        if j < prev.len() {
                            assert(prev[j] == w);
                        }
                    }
                    if prev.contains(w) {
                        let j = choose|j: int| 0 <= j < prev.len() && prev[j] == w;
                        assert(views(found@)[j] == w);
                    }
                    assert(views(found@).contains(w) == (prev.contains(w) || w == x));
                }
                assert(views(found@).to_set() =~= before.to_set().union(views(words@).take(k + 1).to_set()));
                k = k + 1;
            }
            assert(views(words@).take(words.len() as int) =~= views(words@));
            node = next;
            proof {
                assert(node == self.state_after(text@, (index + 1) as nat));
                assert(self.found_within(text@, (index + 1) as nat) =~= self.found_within(text@, index as nat).union(
                    views(self.out@[node as int]@).to_set(),
                )) by {
                    assert forall|w: Seq<char>| #[trigger] self.found_within(text@, (index + 1) as nat).contains(w) implies self.found_within(text@, index as nat).union(
                        views(self.out@[node as int]@).to_set(),
                    ).contains(w) by {
                        let j = choose|j: int| 1 <= j <= index + 1 && views(self.out@[#[trigger] self.state_after(text@, j as nat)]@).contains(w);
                        if j == index + 1 {
                        } else {
                            assert(self.found_within(text@, index as nat).contains(w));
                        }
                    }
                    assert forall|w: Seq<char>| #[trigger] self.found_within(text@, index as nat).union(
                        views(self.out@[node as int]@).to_set(),
                    ).contains(w) implies self.found_within(text@, (index + 1) as nat).contains(w) by {
                        if self.found_within(text@, index as nat).contains(w) {
                            let j = choose|j: int| 1 <= j <= index && views(self.out@[#[trigger] self.state_after(text@, j as nat)]@).contains(w);
                            assert(1 <= j <= index + 1);
                        } else {
                            assert(views(self.out@[self.state_after(text@, (index + 1) as nat)]@).contains(w));
                        }
                    }
                }
            }
            index = index + 1;
        }
        Ok(found)
    }
}

} // verus!
