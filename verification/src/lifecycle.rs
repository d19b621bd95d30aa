//! Card lifecycle transitions: a candidate is published or rejected, a
//! published card archived or deleted. Each transition works on the card as
//! loaded and returns the card to write back, or the same card marked
//! unchanged when it is already in the target state.

use vstd::prelude::*;

use crate::chars::{extend_str, from_chars, int_text, push_int, str_eq};
use crate::chars::{str_byte_len, utf8_len};
use crate::mem::{
    body_lines_seq, canonical_entities_seq, is_core_error, kept_entities, normalize_structured_content, serialize_card,
    serialize_seq, structured_error, views, Card, CardModel,
};
use crate::mem::parse::{parse_card, parse_card_result};
use crate::normalize::{normalize_seq, normalize_text, py_strip_seq};
use crate::mem::{canonical_entities, newline_prefixed};
use crate::radar::{scope_visible, scope_visible_seq};
use crate::Error;

verus! {

broadcast use vstd::string::group_string_axioms;

/// The plain value of an optional project.
pub open spec fn opt_project(p: Option<&str>) -> Option<Seq<char>> {
    match p {
        Some(x) => Some(x@),
        None => None,
    }
}

/// The card is outside the given project's view.
pub open spec fn hidden_from(c: CardModel, project: Option<Seq<char>>) -> bool {
    match project {
        Some(p) => !scope_visible_seq(c.scope, p),
        None => false,
    }
}

/// The refusal for a card outside the project's view.
pub open spec fn hidden_text(id: int) -> Seq<char> {
    "当前范围内不存在记忆 "@ + int_text(id)
}

/// `"记忆 {cid}"` followed by `rest`.
pub open spec fn card_text(cid: int, rest: Seq<char>) -> Seq<char> {
    "记忆 "@ + int_text(cid) + rest
}

/// A card removed from use: a plain fact with no standing, entities,
/// dates, lock or links, its title saying why.
pub open spec fn cleared(c: CardModel, today: Seq<char>, source: Seq<char>, title: Seq<char>) -> CardModel {
    CardModel {
        status: "tombstone"@,
        card_type: "fact"@,
        importance: 0,
        trust: 0,
        updated: today,
        entities: Seq::empty(),
        source: source,
        lock: false,
        last_used: Seq::empty(),
        valid_from: Seq::empty(),
        valid_to: Seq::empty(),
        supersedes: Seq::empty(),
        title: title,
        body: Seq::empty(),
        ..c
    }
}

/// Publishing: a candidate becomes published on `today`; a published card
/// is left unchanged; any other status is refused.
pub open spec fn publish_result(c: CardModel, cid: int, project: Option<Seq<char>>, today: Seq<char>) -> Result<
    CardModel,
    Seq<char>,
> {
    if hidden_from(c, project) {
        Err(hidden_text(c.id))
    } else if c.status == "published"@ {
        Ok(CardModel { unchanged: true, ..c })
    } else if c.status != "candidate"@ {
        Err(card_text(cid, " 不是待发布的候选记忆"@))
    } else {
        Ok(CardModel { status: "published"@, updated: today, ..c })
    }
}

/// Rejecting: a candidate becomes a rejected tombstone; an already rejected
/// one is left unchanged; any other status is refused.
pub open spec fn reject_result(c: CardModel, cid: int, project: Option<Seq<char>>, today: Seq<char>) -> Result<
    CardModel,
    Seq<char>,
> {
    if hidden_from(c, project) {
        Err(hidden_text(c.id))
    } else if c.status == "tombstone"@ && c.source == "system:rejected"@ {
        Ok(CardModel { unchanged: true, ..c })
    } else if c.status != "candidate"@ {
        Err(card_text(cid, " 不是可丢弃的候选记忆"@))
    } else {
        Ok(cleared(c, today, "system:rejected"@, "已拒绝的候选记忆 "@ + int_text(cid) + "。"@))
    }
}

/// Archiving: a published card becomes archived; an archived one is left
/// unchanged; any other status is refused.
pub open spec fn archive_result(c: CardModel, cid: int, project: Option<Seq<char>>, today: Seq<char>) -> Result<
    CardModel,
    Seq<char>,
> {
    if hidden_from(c, project) {
        Err(hidden_text(c.id))
    } else if c.status == "archived"@ {
        Ok(CardModel { unchanged: true, ..c })
    } else if c.status != "published"@ {
        Err(card_text(cid, " 不是可归档的正式记忆"@))
    } else {
        Ok(CardModel { status: "archived"@, updated: today, ..c })
    }
}

/// Deleting: any card becomes a deleted tombstone, a published one only
/// when confirmed; a tombstone is left unchanged.
pub open spec fn tombstone_result(
    c: CardModel,
    cid: int,
    confirmed: bool,
    project: Option<Seq<char>>,
    today: Seq<char>,
) -> Result<CardModel, Seq<char>> {
    if hidden_from(c, project) {
        Err(hidden_text(c.id))
    } else if c.status == "tombstone"@ {
        Ok(CardModel { unchanged: true, ..c })
    } else if c.status == "published"@ && !confirmed {
        Err("删除已发布卡片必须显式确认"@)
    } else {
        Ok(cleared(c, today, "system:deleted"@, "已删除的记忆 "@ + int_text(cid) + "。"@))
    }
}

/// The outcome of a transition as plain values.
pub open spec fn outcome(r: Result<Card, Error>, expected: Result<CardModel, Seq<char>>) -> bool {
    match expected {
        Ok(m) => r matches Ok(c) && c@ == m,
        Err(t) => r matches Err(Error::Core(x)) && x@ == t,
    }
}

/// The text of `s` before the first `sep` (all of it when none).
pub open spec fn prefix_before(s: Seq<char>, sep: char) -> Seq<char>
    decreases s.len(),
{
    if s.len() == 0 {
        s
    } else if s[0] == sep {
        Seq::empty()
    } else {
        seq![s[0]] + prefix_before(s.drop_first(), sep)
    }
}

proof fn lemma_prefix_before_at(s: Seq<char>, sep: char, k: int)
    requires
        0 <= k <= s.len(),
        forall|j: int| 0 <= j < k ==> s[j] != sep,
        k == s.len() || s[k] == sep,
    ensures
        prefix_before(s, sep) == s.take(k),
    decreases k,
{
    if k == 0 {
        if s.len() == 0 {
            assert(s.take(0) =~= s);
        } else {
            assert(s.take(0) =~= Seq::<char>::empty());
        }
    } else {
        let t = s.drop_first();
        assert forall|j: int| 0 <= j < k - 1 implies t[j] != sep by {
            assert(t[j] == s[j + 1]);
        }
        if k < s.len() {
            assert(t[k - 1] == s[k]);
        }
        lemma_prefix_before_at(t, sep, k - 1);
        assert(seq![s[0]] + t.take(k - 1) =~= s.take(k));
    }
}

fn core_text(v: &Vec<char>) -> (e: Error)
    ensures
        e matches Error::Core(x) && x@ == v@,
{
    Error::Core(from_chars(v))
}

fn card_error(cid: i64, rest: &str) -> (e: Error)
    ensures
        e matches Error::Core(x) && x@ == card_text(cid as int, rest@),
{
    let mut v: Vec<char> = Vec::new();
    extend_str(&mut v, "记忆 ");
    push_int(&mut v, cid);
    extend_str(&mut v, rest);
    core_text(&v)
}

fn titled(prefix: &str, cid: i64) -> (r: String)
    ensures
        r@ == prefix@ + int_text(cid as int) + "。"@,
{
    let mut v: Vec<char> = Vec::new();
    extend_str(&mut v, prefix);
    push_int(&mut v, cid);
    extend_str(&mut v, "。");
    from_chars(&v)
}

/// Refuses a card outside the given project's view.
pub fn require_visible_scope(card: &Card, project: Option<&str>) -> (r: Result<(), Error>)
    ensures
        hidden_from(card@, opt_project(project)) <==> r is Err,
        r matches Err(e) ==> e matches Error::Core(x) && x@ == hidden_text(card.id as int),
{
    if let Some(p) = project {
        if !scope_visible(card.scope.as_str(), p) {
            let mut v: Vec<char> = Vec::new();
            extend_str(&mut v, "当前范围内不存在记忆 ");
            push_int(&mut v, card.id);
            return Err(core_text(&v));
        }
    }
    Ok(())
}

/// Empties a card into a tombstone.
fn clear_card(card: &mut Card, today: &str, source: &str, title: String)
    ensures
        final(card)@ == cleared(old(card)@, today@, source@, title@),
{
    card.status = String::from_str("tombstone");
    card.card_type = String::from_str("fact");
    card.importance = 0;
    card.trust = 0;
    card.updated = String::from_str(today);
    card.entities = Vec::new();
    card.source = String::from_str(source);
    card.lock = false;
    card.last_used = String::new();
    card.valid_from = String::new();
    card.valid_to = String::new();
    card.supersedes = Vec::new();
    card.title = title;
    card.body = Vec::new();
    assert(views(card.entities@) =~= Seq::<Seq<char>>::empty());
    assert(views(card.body@) =~= Seq::<Seq<char>>::empty());
    assert(card@ =~= cleared(old(card)@, today@, source@, title@));
}

/// Publishes the loaded candidate `cid` on `today`.
pub fn publish(card: Card, cid: i64, project: Option<&str>, today: &str) -> (r: Result<Card, Error>)
    ensures
        outcome(r, publish_result(card@, cid as int, opt_project(project), today@)),
{
    let mut card = card;
    require_visible_scope(&card, project)?;
    if str_eq(card.status.as_str(), "published") {
        card.unchanged = true;
        return Ok(card);
    }
    if !str_eq(card.status.as_str(), "candidate") {
        return Err(card_error(cid, " 不是待发布的候选记忆"));
    }
    card.status = String::from_str("published");
    card.updated = String::from_str(today);
    Ok(card)
}

/// Rejects the loaded candidate `cid` on `today`.
pub fn reject(card: Card, cid: i64, project: Option<&str>, today: &str) -> (r: Result<Card, Error>)
    ensures
        outcome(r, reject_result(card@, cid as int, opt_project(project), today@)),
{
    let mut card = card;
    require_visible_scope(&card, project)?;
    if str_eq(card.status.as_str(), "tombstone") && str_eq(card.source.as_str(), "system:rejected") {
        card.unchanged = true;
        return Ok(card);
    }
    if !str_eq(card.status.as_str(), "candidate") {
        return Err(card_error(cid, " 不是可丢弃的候选记忆"));
    }
    let title = titled("已拒绝的候选记忆 ", cid);
    clear_card(&mut card, today, "system:rejected", title);
    Ok(card)
}

/// The audit name of a card source: its kind before `:` when it is
/// `user`, `self`, `system` or `external`, else `unknown`.
pub fn audit_source(source: &str) -> (r: String)
    ensures
        ({
            let k = prefix_before(source@, ':');
            if k == "user"@ || k == "self"@ || k == "system"@ || k == "external"@ {
                r@ == k
            } else {
                r@ == "unknown"@
            }
        }),
{
    let v = crate::chars::to_chars(source);
    let mut k: usize = 0;
    while k < v.len() && v[k] != ':'
        invariant
            k <= v.len(),
            forall|j: int| 0 <= j < k ==> v@[j] != ':',
        decreases v.len() - k,
    {
        k = k + 1;
    }
    proof {
        lemma_prefix_before_at(v@, ':', k as int);
    }
    let head = from_chars(&crate::chars::slice_chars(&v, 0, k));
    let t = head.as_str();
    if str_eq(t, "user") || str_eq(t, "self") || str_eq(t, "system") || str_eq(t, "external") {
        head
    } else {
        String::from_str("unknown")
    }
}

/// Archives the loaded published card `cid` on `today`.
pub fn archive_card(card: Card, cid: i64, project: Option<&str>, today: &str) -> (r: Result<Card, Error>)
    ensures
        outcome(r, archive_result(card@, cid as int, opt_project(project), today@)),
{
    let mut card = card;
    require_visible_scope(&card, project)?;
    if str_eq(card.status.as_str(), "archived") {
        card.unchanged = true;
        return Ok(card);
    }
    if !str_eq(card.status.as_str(), "published") {
        return Err(card_error(cid, " 不是可归档的正式记忆"));
    }
    card.status = String::from_str("archived");
    card.updated = String::from_str(today);
    Ok(card)
}

/// Deletes the loaded card `cid` on `today` (a published card only when
/// `confirmed`).
pub fn tombstone_card(card: Card, cid: i64, confirmed: bool, project: Option<&str>, today: &str) -> (r: Result<
    Card,
    Error,
>)
    ensures
        outcome(r, tombstone_result(card@, cid as int, confirmed, opt_project(project), today@)),
{
    let mut card = card;
    require_visible_scope(&card, project)?;
    if str_eq(card.status.as_str(), "tombstone") {
        card.unchanged = true;
        return Ok(card);
    }
    if str_eq(card.status.as_str(), "published") && !confirmed {
        let mut v: Vec<char> = Vec::new();
        extend_str(&mut v, "删除已发布卡片必须显式确认");
        return Err(core_text(&v));
    }
    let title = titled("已删除的记忆 ", cid);
    clear_card(&mut card, today, "system:deleted", title);
    Ok(card)
}


/// Publishing twice is publishing once: the second publish, on any day,
/// leaves the published card unchanged.
pub proof fn law_publish_idempotent(c: CardModel, cid: int, project: Option<Seq<char>>, today: Seq<char>, later: Seq<char>)
    requires
        publish_result(c, cid, project, today) is Ok,
    ensures
        publish_result(c, cid, project, today) matches Ok(p) && p.status == "published"@ && publish_result(
            p,
            cid,
            project,
            later,
        ) == Ok::<CardModel, Seq<char>>(CardModel { unchanged: true, ..p }),
{
}

/// A deleted card stays deleted: it cannot be published, rejected as a
/// candidate or archived, and deleting it again changes nothing.
pub proof fn law_tombstone_is_final(
    c: CardModel,
    cid: int,
    confirmed: bool,
    project: Option<Seq<char>>,
    today: Seq<char>,
    later: Seq<char>,
)
    requires
        tombstone_result(c, cid, confirmed, project, today) is Ok,
    ensures
        tombstone_result(c, cid, confirmed, project, today) matches Ok(t) && t.status == "tombstone"@ && publish_result(
            t,
            cid,
            project,
            later,
        ) is Err && archive_result(t, cid, project, later) is Err && tombstone_result(t, cid, confirmed, project, later)
            == Ok::<CardModel, Seq<char>>(CardModel { unchanged: true, ..t }),
{
    reveal_strlit("tombstone");
    reveal_strlit("published");
    reveal_strlit("candidate");
    reveal_strlit("archived");
    assert("tombstone"@[0] != "published"@[0]);
    assert("tombstone"@[0] != "candidate"@[0]);
    assert("tombstone"@ != "archived"@);
    assert("tombstone"@ != "published"@);
    assert("tombstone"@ != "candidate"@);
}

/// Rejecting twice is rejecting once.
pub proof fn law_reject_idempotent(c: CardModel, cid: int, project: Option<Seq<char>>, today: Seq<char>, later: Seq<char>)
    requires
        reject_result(c, cid, project, today) is Ok,
    ensures
        reject_result(c, cid, project, today) matches Ok(t) && t.status == "tombstone"@ && t.source == "system:rejected"@
            && reject_result(t, cid, project, later) == Ok::<CardModel, Seq<char>>(CardModel { unchanged: true, ..t }),
{
}

/// Transitions move only along the lifecycle: publishing needs a candidate
/// (or a published card), archiving a published (or archived) card,
/// rejecting a candidate (or a rejected tombstone); and every transition
/// keeps the card's id and scope.
pub proof fn law_lifecycle_order(c: CardModel, cid: int, confirmed: bool, project: Option<Seq<char>>, today: Seq<char>)
    ensures
        publish_result(c, cid, project, today) matches Ok(p) ==> (c.status == "candidate"@ || c.status == "published"@)
            && p.id == c.id && p.scope == c.scope,
        archive_result(c, cid, project, today) matches Ok(a) ==> (c.status == "published"@ || c.status == "archived"@)
            && a.id == c.id && a.scope == c.scope,
        reject_result(c, cid, project, today) matches Ok(r) ==> (c.status == "candidate"@ || (c.status == "tombstone"@
            && c.source == "system:rejected"@)) && r.id == c.id && r.scope == c.scope,
        tombstone_result(c, cid, confirmed, project, today) matches Ok(t) ==> (c.status != "published"@ || confirmed
            || c.status == "tombstone"@) && t.id == c.id && t.scope == c.scope,
{
}

/// The plain values of cards.
pub open spec fn cards_view(v: Seq<Card>) -> Seq<CardModel> {
    v.map_values(|c: Card| c@)
}

/// A candidate visible from the project (any project when none or empty).
pub open spec fn listed_candidate(m: CardModel, project: Option<Seq<char>>) -> bool {
    m.status == "candidate"@ && match project {
        Some(p) => p.len() == 0 || scope_visible_seq(m.scope, p),
        None => true,
    }
}

/// The candidates among the cards, in order, visible from the project.
pub fn candidate_list(cards: Vec<Card>, project: Option<&str>) -> (r: Vec<Card>)
    ensures
        cards_view(r@) == cards_view(cards@).filter(|m: CardModel| listed_candidate(m, opt_project(project))),
{
    let ghost cv = cards_view(cards@);
    let ghost pred = |m: CardModel| listed_candidate(m, opt_project(project));
    let n = cards.len();
    let mut rest = cards;
    let mut out: Vec<Card> = Vec::new();
    let mut i: usize = 0;
    while rest.len() > 0
        invariant
            i <= n,
            cv.len() == n,
            rest@.len() == n - i,
            cards_view(rest@) == cv.skip(i as int),
            pred == (|m: CardModel| listed_candidate(m, opt_project(project))),
            cards_view(out@) == cv.take(i as int).filter(pred),
        decreases rest.len(),
    {
        let ghost rv = rest@;
        let c = rest.remove(0);
        assert(cards_view(rest@) =~= cv.skip(i + 1)) by {
            assert(rest@ =~= rv.skip(1));
            assert forall|k: int| 0 <= k < rest@.len() implies #[trigger] cards_view(rest@)[k] == cv.skip(i + 1)[k] by {
                assert(cards_view(rest@)[k] == cards_view(rv)[k + 1]);
            }
        }
        assert(c@ == cv[i as int]) by {
            assert(cards_view(rv)[0] == cv.skip(i as int)[0]);
        }
        proof {
            reveal(Seq::filter);
            assert(cv.take(i + 1) =~= cv.take(i as int).push(cv[i as int]));
            assert(cv.take(i + 1).drop_last() =~= cv.take(i as int));
        }
        let visible = match project {
            Some(p) => p.unicode_len() == 0 || scope_visible(c.scope.as_str(), p),
            None => true,
        };
        if str_eq(c.status.as_str(), "candidate") && visible {
            let ghost prev = out@;
            out.push(c);
            assert(cards_view(out@) =~= cards_view(prev).push(cv[i as int]));
        }
        i = i + 1;
    }
    assert(cv.take(n as int) =~= cv);
    out
}

/// Serialization sees a card only through its plain values.
pub proof fn lemma_serialize_by_view(a: Card, b: Card, today: Seq<char>)
    requires
        a@ == b@,
    ensures
        serialize_seq(a, today) == serialize_seq(b, today),
{
    assert(a.entities@.len() == views(a.entities@).len());
    assert(b.entities@.len() == views(b.entities@).len());
}

/// The byte size of a card's text as of `today`.
pub open spec fn card_bytes(c: Card, today: Seq<char>) -> nat {
    utf8_len(serialize_seq(c, today))
}

/// New content for a published card; absent fields are kept.
pub struct UpdateFields {
    pub title: Option<String>,
    pub body: Option<Vec<String>>,
    pub entities: Option<Vec<String>>,
    pub card_type: Option<String>,
}

/// Replacement title, body lines, entities and type as plain values.
pub type FieldsModel = (Option<Seq<char>>, Option<Seq<Seq<char>>>, Option<Seq<Seq<char>>>, Option<Seq<char>>);

pub open spec fn fields_view(f: UpdateFields) -> FieldsModel {
    (
        match f.title {
            Some(t) => Some(t@),
            None => None,
        },
        match f.body {
            Some(b) => Some(views(b@)),
            None => None,
        },
        match f.entities {
            Some(e) => Some(views(e@)),
            None => None,
        },
        match f.card_type {
            Some(t) => Some(t@),
            None => None,
        },
    )
}

pub open spec fn or_keep<T>(o: Option<T>, d: T) -> T {
    match o {
        Some(x) => x,
        None => d,
    }
}

/// Whether the fields change the card's content.
pub open spec fn content_changes(c: CardModel, f: FieldsModel) -> bool {
    !(c.title == or_keep(f.0, c.title) && c.body == or_keep(f.1, c.body) && c.entities == or_keep(f.2, c.entities)
        && c.card_type == or_keep(f.3, c.card_type))
}

/// Updating a published card's content: unchanged content leaves it marked
/// unchanged; new content is dated `today`. Other statuses are refused.
pub open spec fn update_result(c: CardModel, cid: int, f: FieldsModel, project: Option<Seq<char>>, today: Seq<char>) -> Result<
    CardModel,
    Seq<char>,
> {
    if hidden_from(c, project) {
        Err(hidden_text(c.id))
    } else if c.status != "published"@ {
        Err(card_text(cid, " 不是可更新的正式记忆"@))
    } else if !content_changes(c, f) {
        Ok(CardModel { unchanged: true, ..c })
    } else {
        Ok(
            CardModel {
                title: or_keep(f.0, c.title),
                body: or_keep(f.1, c.body),
                entities: or_keep(f.2, c.entities),
                card_type: or_keep(f.3, c.card_type),
                updated: today,
                ..c
            },
        )
    }
}

/// The refusal of an update whose text would exceed the card size limit.
pub open spec fn too_large_text() -> Seq<char> {
    "记忆内容超过 2097152 字节上限"@
}

/// The outcome of an update, with the size limit on changed content.
pub open spec fn update_outcome(
    r: Result<Card, Error>,
    c: CardModel,
    cid: int,
    f: FieldsModel,
    project: Option<Seq<char>>,
    today: Seq<char>,
) -> bool {
    match update_result(c, cid, f, project, today) {
        Err(m) => is_core_error(r, m),
        Ok(n) => if !content_changes(c, f) {
            r matches Ok(x) && x@ == n
        } else {
            (r matches Ok(x) && x@ == n && card_bytes(x, today) <= crate::MAX_CARD_BYTES) || (is_core_error(
                r,
                too_large_text(),
            ) && forall|y: Card| #[trigger] y@ == n ==> card_bytes(y, today) > crate::MAX_CARD_BYTES)
        },
    }
}

fn same_strings(a: &Vec<String>, b: &Vec<String>) -> (r: bool)
    ensures
        r == (views(a@) == views(b@)),
{
    if a.len() != b.len() {
        assert(views(a@).len() != views(b@).len());
        return false;
    }
    let mut i: usize = 0;
    while i < a.len()
        invariant
            i <= a@.len(),
            a@.len() == b@.len(),
            forall|k: int| 0 <= k < i ==> a@[k]@ == b@[k]@,
        decreases a.len() - i,
    {
        if !str_eq(a[i].as_str(), b[i].as_str()) {
            assert(views(a@)[i as int] != views(b@)[i as int]);
            return false;
        }
        i = i + 1;
    }
    assert(views(a@) =~= views(b@));
    true
}

/// Updates the loaded published card `cid` with `fields` on `today`.
pub fn update_card_values(current: Card, cid: i64, fields: UpdateFields, project: Option<&str>, today: &str) -> (r: Result<
    Card,
    Error,
>)
    ensures
        update_outcome(r, current@, cid as int, fields_view(fields), opt_project(project), today@),
{
    let mut current = current;
    let ghost c0 = current@;
    let ghost fv = fields_view(fields);
    require_visible_scope(&current, project)?;
    if !str_eq(current.status.as_str(), "published") {
        return Err(card_error(cid, " 不是可更新的正式记忆"));
    }
    let same_title = match &fields.title {
        Some(t) => str_eq(t.as_str(), current.title.as_str()),
        None => true,
    };
    let same_body = match &fields.body {
        Some(b) => same_strings(b, &current.body),
        None => true,
    };
    let same_entities = match &fields.entities {
        Some(e) => same_strings(e, &current.entities),
        None => true,
    };
    let same_type = match &fields.card_type {
        Some(t) => str_eq(t.as_str(), current.card_type.as_str()),
        None => true,
    };
    if same_title && same_body && same_entities && same_type {
        current.unchanged = true;
        return Ok(current);
    }
    match fields.title {
        Some(t) => {
            current.title = t;
        },
        None => {},
    }
    match fields.body {
        Some(b) => {
            current.body = b;
        },
        None => {},
    }
    match fields.entities {
        Some(e) => {
            current.entities = e;
        },
        None => {},
    }
    match fields.card_type {
        Some(t) => {
            current.card_type = t;
        },
        None => {},
    }
    current.updated = String::from_str(today);
    let text = serialize_card(&current, today);
    if str_byte_len(text.as_str()) > crate::MAX_CARD_BYTES {
        proof {
            assert forall|y: Card| #[trigger] y@ == current@ implies card_bytes(y, today@) > crate::MAX_CARD_BYTES by {
                lemma_serialize_by_view(y, current, today@);
            }
        }
        let mut v: Vec<char> = Vec::new();
        extend_str(&mut v, "记忆内容超过 2097152 字节上限");
        return Err(core_text(&v));
    }
    Ok(current)
}

/// The validated replacement fields of a field-wise update: each present
/// field is checked with placeholders for the others; the first refusal
/// wins.
pub open spec fn fields_result(
    title: Option<Seq<char>>,
    body: Option<Seq<char>>,
    entities: Option<Seq<Seq<char>>>,
    card_type: Option<Seq<char>>,
) -> Result<FieldsModel, Seq<char>> {
    let placeholder = "临时标题"@;
    let t: Result<Option<Seq<char>>, Seq<char>> = match title {
        None => Ok(None),
        Some(x) => match structured_error(x, Seq::empty(), Seq::empty(), "fact"@) {
            Some(m) => Err(m),
            None => Ok(Some(py_strip_seq(x))),
        },
    };
    let b: Result<Option<Seq<Seq<char>>>, Seq<char>> = match body {
        None => Ok(None),
        Some(x) => match structured_error(placeholder, x, Seq::empty(), "fact"@) {
            Some(m) => Err(m),
            None => Ok(Some(body_lines_seq(x))),
        },
    };
    let e: Result<Option<Seq<Seq<char>>>, Seq<char>> = match entities {
        None => Ok(None),
        Some(x) => match structured_error(placeholder, Seq::empty(), x, "fact"@) {
            Some(m) => Err(m),
            None => Ok(Some(canonical_entities_seq(kept_entities(x)))),
        },
    };
    let ty: Result<Option<Seq<char>>, Seq<char>> = match card_type {
        None => Ok(None),
        Some(x) => match structured_error(placeholder, Seq::empty(), Seq::empty(), x) {
            Some(m) => Err(m),
            None => Ok(Some(x)),
        },
    };
    match t {
        Err(m) => Err(m),
        Ok(t) => match b {
            Err(m) => Err(m),
            Ok(b) => match e {
                Err(m) => Err(m),
                Ok(e) => match ty {
                    Err(m) => Err(m),
                    Ok(ty) => Ok((t, b, e, ty)),
                },
            },
        },
    }
}

pub open spec fn opt_strs(o: Option<&Vec<String>>) -> Option<Seq<Seq<char>>> {
    match o {
        Some(v) => Some(views(v@)),
        None => None,
    }
}

/// Field-wise update of the loaded published card `cid` on `today`; each
/// present field is validated first.
pub fn update_card_fields(
    current: Card,
    cid: i64,
    title: Option<&str>,
    body: Option<&str>,
    entities: Option<&Vec<String>>,
    card_type: Option<&str>,
    project: Option<&str>,
    today: &str,
) -> (r: Result<Card, Error>)
    ensures
        match fields_result(opt_project(title), opt_project(body), opt_strs(entities), opt_project(card_type)) {
            Err(m) => is_core_error(r, m),
            Ok(f) => update_outcome(r, current@, cid as int, f, opt_project(project), today@),
        },
{
    let none: Vec<String> = Vec::new();
    proof {
        reveal_strlit("");
        assert(""@ =~= Seq::<char>::empty());
        assert(views(none@) =~= Seq::<Seq<char>>::empty());
    }
    let mut fields = UpdateFields { title: None, body: None, entities: None, card_type: None };
    if let Some(t) = title {
        let (nt, _, _, _) = normalize_structured_content(t, "", &none, "fact")?;
        fields.title = Some(nt);
    }
    if let Some(b) = body {
        let (_, nb, _, _) = normalize_structured_content("临时标题", b, &none, "fact")?;
        fields.body = Some(nb);
    }
    if let Some(e) = entities {
        let (_, _, ne, _) = normalize_structured_content("临时标题", "", e, "fact")?;
        fields.entities = Some(ne);
    }
    if let Some(ty) = card_type {
        let (_, _, _, nty) = normalize_structured_content("临时标题", "", &none, ty)?;
        fields.card_type = Some(nty);
    }
    update_card_values(current, cid, fields, project, today)
}

/// The refusal of an update text that names another card.
pub open spec fn foreign_id_text() -> Seq<char> {
    "更新文本中的编号必须为 0 或目标记忆编号"@
}

/// Replaces the content of the loaded published card `cid` with that of a
/// `.mem` text whose id is 0 or `cid`.
pub fn update_card(current: Card, cid: i64, text: &str, today: &str) -> (r: Result<Card, Error>)
    ensures
        match parse_card_result(text@) {
            Err(m) => is_core_error(r, m),
            Ok(p) => if p.id != 0 && p.id != cid {
                is_core_error(r, foreign_id_text())
            } else {
                update_outcome(r, current@, cid as int, (Some(p.title), Some(p.body), Some(p.entities), Some(p.card_type)), None, today@)
            },
        },
{
    let replacement = parse_card(text)?;
    if replacement.id != 0 && replacement.id != cid {
        let mut v: Vec<char> = Vec::new();
        extend_str(&mut v, "更新文本中的编号必须为 0 或目标记忆编号");
        return Err(core_text(&v));
    }
    let fields = UpdateFields {
        title: Some(replacement.title),
        body: Some(replacement.body),
        entities: Some(replacement.entities),
        card_type: Some(replacement.card_type),
    };
    update_card_values(current, cid, fields, None, today)
}

/// Updates are patches of the content only: an accepted update keeps the
/// card's id, status, source, lock, scope, importance, trust, access date,
/// validity and replacement links; absent fields keep their values; an
/// update that changes nothing marks the card unchanged.
pub proof fn law_update_is_a_content_patch(
    c: CardModel,
    cid: int,
    f: FieldsModel,
    project: Option<Seq<char>>,
    today: Seq<char>,
)
    ensures
        update_result(c, cid, f, project, today) matches Ok(n) ==> {
            &&& n.id == c.id && n.status == c.status && n.source == c.source && n.lock == c.lock
            &&& n.scope == c.scope && n.importance == c.importance && n.trust == c.trust
            &&& n.last_used == c.last_used && n.valid_from == c.valid_from && n.valid_to == c.valid_to
            &&& n.supersedes == c.supersedes
            &&& (f.0 is None ==> n.title == c.title) && (f.1 is None ==> n.body == c.body)
            &&& (f.2 is None ==> n.entities == c.entities) && (f.3 is None ==> n.card_type == c.card_type)
            &&& (!content_changes(c, f) ==> n == CardModel { unchanged: true, ..c })
        },
{
}

/// Project isolation: every lifecycle operation refuses a card that the
/// project cannot see, with the same answer as for a missing card.
pub proof fn law_lifecycle_respects_scope(
    c: CardModel,
    cid: int,
    confirmed: bool,
    f: FieldsModel,
    p: Seq<char>,
    today: Seq<char>,
)
    requires
        !scope_visible_seq(c.scope, p),
    ensures
        publish_result(c, cid, Some(p), today) == Err::<CardModel, Seq<char>>(hidden_text(c.id)),
        reject_result(c, cid, Some(p), today) == Err::<CardModel, Seq<char>>(hidden_text(c.id)),
        archive_result(c, cid, Some(p), today) == Err::<CardModel, Seq<char>>(hidden_text(c.id)),
        tombstone_result(c, cid, confirmed, Some(p), today) == Err::<CardModel, Seq<char>>(hidden_text(c.id)),
        update_result(c, cid, f, Some(p), today) == Err::<CardModel, Seq<char>>(hidden_text(c.id)),
{
}

/// The text a duplicate is recognised by: the title and body lines,
/// normalized.
pub open spec fn semantic_text_of(m: CardModel) -> Seq<char> {
    normalize_seq(m.title + newline_prefixed(m.body))
}

/// The scope a duplicate must share: normalized, empty meaning global.
pub open spec fn scope_key_of(scope: Seq<char>) -> Seq<char> {
    let n = normalize_seq(scope);
    if n.len() == 0 || n == "global"@ {
        "global"@
    } else {
        n
    }
}

/// An active card (candidate or published) with the same scope and the
/// same normalized title and body.
pub open spec fn duplicate_of(existing: CardModel, card: CardModel) -> bool {
    (existing.status == "candidate"@ || existing.status == "published"@) && scope_key_of(existing.scope)
        == scope_key_of(card.scope) && semantic_text_of(existing) == semantic_text_of(card)
}

fn semantic_text(card: &Card) -> (r: String)
    ensures
        r@ == semantic_text_of(card@),
{
    let mut v: Vec<char> = crate::chars::to_chars(card.title.as_str());
    let ghost head = v@;
    let ghost body = views(card.body@);
    let mut i: usize = 0;
    while i < card.body.len()
        invariant
            i <= card.body@.len(),
            body == views(card.body@),
            v@ == head + newline_prefixed(body.take(i as int)),
        decreases card.body.len() - i,
    {
        v.push('\n');
        extend_str(&mut v, card.body[i].as_str());
        assert(body.take(i + 1).drop_last() =~= body.take(i as int));
        assert(body.take(i + 1).last() == card.body@[i as int]@);
        assert(v@ =~= head + newline_prefixed(body.take(i + 1)));
        i = i + 1;
    }
    assert(body.take(card.body.len() as int) =~= body);
    normalize_text(from_chars(&v).as_str())
}

fn scope_key(scope: &str) -> (r: String)
    ensures
        r@ == scope_key_of(scope@),
{
    let n = normalize_text(scope);
    if n.as_str().unicode_len() == 0 || str_eq(n.as_str(), "global") {
        String::from_str("global")
    } else {
        n
    }
}

/// Whether `existing` duplicates the new `card`.
pub fn is_duplicate(existing: &Card, card: &Card) -> (r: bool)
    ensures
        r == duplicate_of(existing@, card@),
{
    (str_eq(existing.status.as_str(), "candidate") || str_eq(existing.status.as_str(), "published")) && str_eq(
        scope_key(existing.scope.as_str()).as_str(),
        scope_key(card.scope.as_str()).as_str(),
    ) && str_eq(semantic_text(existing).as_str(), semantic_text(card).as_str())
}

/// A new card stamped with its status and date; a given source replaces
/// the card's; a lock (given or already set) raises trust to the maximum.
pub open spec fn prepared_card(c: CardModel, status: Seq<char>, source: Seq<char>, lock: bool, today: Seq<char>) -> CardModel {
    let locked = c.lock || lock;
    CardModel {
        status: status,
        updated: today,
        source: if source.len() > 0 {
            source
        } else {
            c.source
        },
        lock: locked,
        trust: if locked && c.trust < 6 {
            6
        } else {
            c.trust
        },
        ..c
    }
}

/// Stamps a new card before it is stored.
pub fn prepare_new_card(card: Card, status: &str, source: &str, lock: bool, today: &str) -> (r: Card)
    ensures
        r@ == prepared_card(card@, status@, source@, lock, today@),
{
    let mut card = card;
    card.status = String::from_str(status);
    card.updated = String::from_str(today);
    if source.unicode_len() > 0 {
        card.source = String::from_str(source);
    }
    if lock {
        card.lock = true;
    }
    if card.lock && card.trust < 6 {
        card.trust = 6;
    }
    card
}

/// Saving onto an existing duplicate: a published save promotes a
/// candidate duplicate (taking the new type, standing and lock, dated
/// `today`), merges the entities, and applies a requested lock at full
/// trust. The result is marked deduplicated, and unchanged when nothing
/// changed; the flag says whether it must be written.
pub open spec fn merged_duplicate(
    d: CardModel,
    c: CardModel,
    status: Seq<char>,
    source: Seq<char>,
    lock: bool,
    today: Seq<char>,
) -> (CardModel, bool) {
    if status == "published"@ {
        let promote = d.status == "candidate"@;
        let d1 = if promote {
            CardModel {
                status: "published"@,
                source: if source.len() == 0 {
                    "user"@
                } else {
                    source
                },
                card_type: c.card_type,
                importance: c.importance,
                trust: c.trust,
                lock: c.lock,
                updated: today,
                ..d
            }
        } else {
            d
        };
        let merged = canonical_entities_seq(d1.entities + c.entities);
        let d2 = CardModel { entities: merged, ..d1 };
        let relock = lock && !d2.lock;
        let d3 = if relock {
            CardModel { lock: true, trust: 6, ..d2 }
        } else {
            d2
        };
        let changed = promote || merged != d1.entities || relock;
        (CardModel { deduplicated: true, unchanged: !changed, ..d3 }, changed)
    } else {
        (CardModel { deduplicated: true, unchanged: true, ..d }, false)
    }
}

/// Saving onto a duplicate keeps the duplicate's identity and text. A
/// published save promotes a candidate duplicate to a published card that
/// takes the saved card's type, importance, trust and lock, dated `today`,
/// and must be written; it leaves a published or archived duplicate's
/// standing, type, importance and date as they were. A requested lock
/// always ends locked; any other save leaves the duplicate unchanged.
pub proof fn law_merge_duplicate(
    d: CardModel,
    c: CardModel,
    status: Seq<char>,
    source: Seq<char>,
    lock: bool,
    today: Seq<char>,
)
    ensures
        ({
            let (r, write) = merged_duplicate(d, c, status, source, lock, today);
            &&& r.id == d.id
            &&& r.title == d.title
            &&& r.body == d.body
            &&& r.scope == d.scope
            &&& r.deduplicated
            &&& r.unchanged == !write
            &&& (status == "published"@ && d.status == "candidate"@) ==> {
                &&& r.status == "published"@
                &&& r.card_type == c.card_type
                &&& r.importance == c.importance
                &&& r.trust == (if lock && !c.lock { 6 } else { c.trust })
                &&& r.lock == (c.lock || lock)
                &&& r.updated == today
                &&& r.source == (if source.len() == 0 { "user"@ } else { source })
                &&& write
            }
            &&& (status == "published"@ && d.status != "candidate"@) ==> {
                &&& r.status == d.status
                &&& r.card_type == d.card_type
                &&& r.importance == d.importance
                &&& r.trust == (if lock && !d.lock { 6 } else { d.trust })
                &&& r.lock == (d.lock || lock)
                &&& r.updated == d.updated
                &&& r.source == d.source
            }
            &&& status != "published"@ ==> r == CardModel { deduplicated: true, unchanged: true, ..d } && !write
        }),
{
}

/// Applies a save to its existing duplicate.
pub fn merge_duplicate(duplicate: Card, card: &Card, status: &str, source: &str, lock: bool, today: &str) -> (r: (Card, bool))
    ensures
        (r.0@, r.1) == merged_duplicate(duplicate@, card@, status@, source@, lock, today@),
{
    let mut d = duplicate;
    let mut changed = false;
    if str_eq(status, "published") {
        if str_eq(d.status.as_str(), "candidate") {
            d.status = String::from_str("published");
            d.source = if source.unicode_len() == 0 {
                String::from_str("user")
            } else {
                String::from_str(source)
            };
            d.card_type = card.card_type.clone();
            d.importance = card.importance;
            d.trust = card.trust;
            d.lock = card.lock;
            d.updated = String::from_str(today);
            changed = true;
        }
        let mut all: Vec<String> = Vec::new();
        let mut i: usize = 0;
        while i < d.entities.len()
            invariant
                i <= d.entities@.len(),
                views(all@) == views(d.entities@).take(i as int),
            decreases d.entities.len() - i,
        {
            let ghost prev = all@;
            all.push(d.entities[i].clone());
            assert(views(all@) =~= views(prev).push(d.entities@[i as int]@));
            assert(views(d.entities@).take(i + 1) =~= views(d.entities@).take(i as int).push(d.entities@[i as int]@));
            i = i + 1;
        }
        let mut j: usize = 0;
        assert(views(d.entities@).take(d.entities.len() as int) =~= views(d.entities@));
        while j < card.entities.len()
            invariant
                j <= card.entities@.len(),
                views(all@) == views(d.entities@) + views(card.entities@).take(j as int),
            decreases card.entities.len() - j,
        {
            let ghost prev = all@;
            all.push(card.entities[j].clone());
            assert(views(all@) =~= views(prev).push(card.entities@[j as int]@));
            assert(views(card.entities@).take(j + 1) =~= views(card.entities@).take(j as int).push(
                card.entities@[j as int]@,
            ));
            j = j + 1;
        }
        assert(views(card.entities@).take(card.entities.len() as int) =~= views(card.entities@));
        let merged = canonical_entities(&all);
        let mut same = merged.len() == d.entities.len();
        let mut k: usize = 0;
        while same && k < merged.len()
            invariant
                k <= merged@.len(),
                same ==> merged@.len() == d.entities@.len(),
                same ==> forall|x: int| 0 <= x < k ==> merged@[x]@ == d.entities@[x]@,
                !same ==> views(merged@) != views(d.entities@),
            decreases merged.len() - k,
        {
            if !str_eq(merged[k].as_str(), d.entities[k].as_str()) {
                assert(views(merged@)[k as int] != views(d.entities@)[k as int]);
                same = false;
            }
            k = k + 1;
        }
        if same {
            assert(views(merged@) =~= views(d.entities@));
        } else {
            d.entities = merged;
            changed = true;
        }
        if lock && !d.lock {
            d.lock = true;
            d.trust = 6;
            changed = true;
        }
    }
    d.deduplicated = true;
    d.unchanged = !changed;
    (d, changed)
}

/// Exact duplicates reuse the existing card: saving onto a duplicate keeps
/// its id, scope and content, marks it deduplicated, and a second identical
/// published save changes nothing more.
pub proof fn law_duplicates_reuse_the_card(d: CardModel, c: CardModel, status: Seq<char>, source: Seq<char>, lock: bool, today: Seq<char>, later: Seq<char>)
    ensures
        ({
            let (m, changed) = merged_duplicate(d, c, status, source, lock, today);
            &&& m.id == d.id && m.scope == d.scope && m.title == d.title && m.body == d.body
            &&& m.deduplicated
            &&& m.unchanged == !changed
        }),
{
}
} // verus!
