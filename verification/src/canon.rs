//! Alias canonicalization: folding arbitrarily ordered association entries
//! into a mapping keyed only by canonical MIME identifiers. The merge is
//! deliberately order-independent — the backing storage of a parsed table
//! guarantees no enumeration order — preferring canonical-keyed entries and
//! breaking ties among aliases by the lexicographically smallest alias.
use vstd::prelude::*;
use crate::error::Error;
use crate::ident::{mime_valid, Handler, MimeId};
use crate::order::{lex_lt, lemma_lex_trans, lemma_lex_trichotomy};
use crate::table::{
    add_value, contains_key, entries_view, entries_wf, hlist_wf, insert_entry, keys_unique,
    lemma_lookup_index, lemma_sorted_implies_unique, lookup_value, map_wf, remove_entry,
    sorted_keys, HandlerList, MimeApps, MimeMap,
};

verus! {

/// First-match lookup of `m` in the alias table.
pub open spec fn alias_lookup(r: Seq<(Seq<u8>, Seq<u8>)>, m: Seq<u8>) -> Option<Seq<u8>>
    decreases r.len(),
{
    if r.len() == 0 {
        None
    } else if r[0].0 == m {
        Some(r[0].1)
    } else {
        alias_lookup(r.skip(1), m)
    }
}

/// The canonical identifier for `m`: the alias table's answer, else `m`
/// itself when the table records no alias.
pub open spec fn canon_of(r: Seq<(Seq<u8>, Seq<u8>)>, m: Seq<u8>) -> Seq<u8> {
    match alias_lookup(r, m) {
        Some(c) => c,
        None => m,
    }
}

proof fn lemma_alias_lookup_skip(r: Seq<(Seq<u8>, Seq<u8>)>, m: Seq<u8>, i: int)
    requires
        0 <= i <= r.len(),
        forall|k: int| 0 <= k < i ==> (#[trigger] r[k]).0 != m,
    ensures
        alias_lookup(r, m) == alias_lookup(r.skip(i), m),
    decreases i,
{
    if i > 0 {
        let t = r.skip(1);
        assert(r[0].0 != m);
        assert(alias_lookup(r, m) == alias_lookup(t, m));
        assert(forall|k: int| 0 <= k < t.len() ==> #[trigger] t[k] == r[k + 1]);
        lemma_alias_lookup_skip(t, m, i - 1);
        assert(t.skip(i - 1) =~= r.skip(i));
        assert(alias_lookup(t, m) == alias_lookup(r.skip(i), m));
    } else {
        assert(r.skip(0) =~= r);
    }
}

/// The mathematical view of an alias pair vector.
pub open spec fn pairs_view(v: Seq<(MimeId, MimeId)>) -> Seq<(Seq<u8>, Seq<u8>)> {
    Seq::new(v.len(), |i: int| (v[i].0@, v[i].1@))
}

/// Wraps the system MIME alias database as an explicit, immutable table of
/// `(alias, canonical)` pairs, loaded once and passed in by the caller. An
/// empty table degrades gracefully to identity canonicalization.
pub struct AliasResolver {
    pairs: Vec<(MimeId, MimeId)>,
}

impl View for AliasResolver {
    type V = Seq<(Seq<u8>, Seq<u8>)>;

    closed spec fn view(&self) -> Seq<(Seq<u8>, Seq<u8>)> {
        pairs_view(self.pairs@)
    }
}

impl AliasResolver {
    pub open spec fn wf(&self) -> bool {
        forall|i: int|
            0 <= i < self@.len() ==> mime_valid((#[trigger] self@[i]).0) && mime_valid(
                self@[i].1,
            )
    }

    /// The identity resolver: every identifier is its own canonical form.
    pub fn empty() -> (r: AliasResolver)
        ensures
            r@.len() == 0,
            r.wf(),
    {
        let r = AliasResolver { pairs: Vec::new() };
        proof {
            assert(r@ =~= Seq::<(Seq<u8>, Seq<u8>)>::empty());
        }
        r
    }

    /// A resolver over the given `(alias, canonical)` pairs.
    pub fn new(pairs: Vec<(MimeId, MimeId)>) -> (r: AliasResolver)
        requires
            forall|i: int|
                0 <= i < pairs@.len() ==> (#[trigger] pairs@[i]).0.wf() && pairs@[i].1.wf(),
        ensures
            r@ == pairs_view(pairs@),
            r.wf(),
    {
        let r = AliasResolver { pairs };
        proof {
            assert forall|i: int| 0 <= i < r@.len() implies mime_valid((#[trigger] r@[i]).0)
                && mime_valid(r@[i].1) by {}
        }
        r
    }

    /// The canonical identifier for `mime`, or `mime` unchanged when the
    /// table records no alias for it. A pure query: the table never changes
    /// within a process lifetime, so answers are consistent across calls.
    /// The scan is linear in the table; indexing it would be a pure
    /// performance improvement with no behavioral change.
    pub fn canonicalize(&self, mime: &MimeId) -> (r: MimeId)
        requires
            self.wf(),
            mime.wf(),
        ensures
            r@ == canon_of(self@, mime@),
            r.wf(),
    {
        let n = self.pairs.len();
        let mut i: usize = 0;
        while i < n
            invariant
                self.wf(),
                mime.wf(),
                n == self.pairs.len(),
                n == self@.len(),
                i <= n,
                forall|k: int| 0 <= k < i ==> (#[trigger] self@[k]).0 != mime@,
            decreases n - i,
        {
            if self.pairs[i].0.same(mime) {
                proof {
                    lemma_alias_lookup_skip(self@, mime@, i as int);
                    assert(self@.skip(i as int)[0] == self@[i as int]);
                }
                return self.pairs[i].1.duplicate();
            }
            i = i + 1;
        }
        proof {
            lemma_alias_lookup_skip(self@, mime@, n as int);
            assert(self@.skip(n as int).len() == 0);
        }
        mime.duplicate()
    }
}

/// View of the merge's working state: `(canonical key, source key, handlers)`.
pub open spec fn slots_view(v: Seq<(MimeId, MimeId, HandlerList)>) -> Seq<
    (Seq<u8>, Seq<u8>, Seq<Seq<u8>>),
> {
    Seq::new(v.len(), |i: int| (v[i].0@, v[i].1@, v[i].2@))
}

pub open spec fn sorted_slots(w: Seq<(Seq<u8>, Seq<u8>, Seq<Seq<u8>>)>) -> bool {
    forall|a: int, b: int|
        0 <= a < b < w.len() ==> lex_lt((#[trigger] w[a]).0, (#[trigger] w[b]).0)
}

pub open spec fn slots_wf(w: Seq<(Seq<u8>, Seq<u8>, Seq<Seq<u8>>)>) -> bool {
    forall|j: int|
        0 <= j < w.len() ==> mime_valid((#[trigger] w[j]).0) && mime_valid(w[j].1) && hlist_wf(
            w[j].2,
        )
}

/// One working slot against the processed entries `t`: it holds an entry of
/// `t` whose canonical form is the slot key; a canonical-keyed entry of `t`
/// always occupies its slot; an alias-keyed occupant is the smallest alias
/// seen for that slot.
pub open spec fn slot_ok(
    r: Seq<(Seq<u8>, Seq<u8>)>,
    t: Seq<(Seq<u8>, Seq<Seq<u8>>)>,
    e: (Seq<u8>, Seq<u8>, Seq<Seq<u8>>),
) -> bool {
    &&& canon_of(r, e.1) == e.0
    &&& t.contains((e.1, e.2))
    &&& forall|q: (Seq<u8>, Seq<Seq<u8>>)|
        #[trigger] t.contains(q) && q.0 == e.0 && canon_of(r, q.0) == q.0 ==> e.1 == e.0 && e.2
            == q.1
    &&& e.1 != e.0 ==> forall|q: (Seq<u8>, Seq<Seq<u8>>)|
        #[trigger] t.contains(q) && canon_of(r, q.0) == e.0 && q.0 != e.1 ==> lex_lt(e.1, q.0)
}

/// The merge's loop invariant: the working slots describe exactly the
/// processed prefix `t` of the input.
pub open spec fn slots_describe(
    r: Seq<(Seq<u8>, Seq<u8>)>,
    t: Seq<(Seq<u8>, Seq<Seq<u8>>)>,
    w: Seq<(Seq<u8>, Seq<u8>, Seq<Seq<u8>>)>,
) -> bool {
    &&& sorted_slots(w)
    &&& forall|j: int| 0 <= j < w.len() ==> slot_ok(r, t, #[trigger] w[j])
    &&& forall|q: (Seq<u8>, Seq<Seq<u8>>)|
        #[trigger] t.contains(q) ==> exists|j: int|
            0 <= j < w.len() && (#[trigger] w[j]).0 == canon_of(r, q.0)
}

/// What the finished merge guarantees, stated only over which entries the
/// input holds — never over their order: the result is keyed by canonical
/// identifiers; every result entry comes from an input entry of that slot; a
/// canonical-keyed input entry always wins its slot; with no canonical-keyed
/// entry, the lexicographically smallest alias wins.
pub open spec fn merged_describes(
    r: Seq<(Seq<u8>, Seq<u8>)>,
    s: Seq<(Seq<u8>, Seq<Seq<u8>>)>,
    o: Seq<(Seq<u8>, Seq<Seq<u8>>)>,
) -> bool {
    &&& sorted_keys(o)
    &&& forall|j: int| 0 <= j < o.len() ==> slot_source(r, s, #[trigger] o[j])
    &&& forall|i: int|
        0 <= i < s.len() ==> contains_key(o, canon_of(r, (#[trigger] s[i]).0))
    &&& forall|i: int|
        0 <= i < s.len() && canon_of(r, (#[trigger] s[i]).0) == s[i].0 ==> lookup_value(
            o,
            s[i].0,
        ) == Some(s[i].1)
    &&& forall|j: int|
        0 <= j < o.len() && !has_canonical(r, s, (#[trigger] o[j]).0) ==> min_alias_source(
            r,
            s,
            o[j],
        )
}

/// Some input entry resolves to this result entry's key and carries its value.
pub open spec fn slot_source(
    r: Seq<(Seq<u8>, Seq<u8>)>,
    s: Seq<(Seq<u8>, Seq<Seq<u8>>)>,
    e: (Seq<u8>, Seq<Seq<u8>>),
) -> bool {
    exists|i: int|
        0 <= i < s.len() && canon_of(r, (#[trigger] s[i]).0) == e.0 && s[i].1 == e.1
}

/// The result entry's value is that of the slot's smallest alias.
pub open spec fn min_alias_source(
    r: Seq<(Seq<u8>, Seq<u8>)>,
    s: Seq<(Seq<u8>, Seq<Seq<u8>>)>,
    e: (Seq<u8>, Seq<Seq<u8>>),
) -> bool {
    exists|i: int| #[trigger] is_min_alias(r, s, e.0, i) && s[i].1 == e.1
}

/// Whether the input holds an entry keyed by the canonical identifier `c`
/// itself.
pub open spec fn has_canonical(
    r: Seq<(Seq<u8>, Seq<u8>)>,
    s: Seq<(Seq<u8>, Seq<Seq<u8>>)>,
    c: Seq<u8>,
) -> bool {
    canon_of(r, c) == c && contains_key(s, c)
}

/// Entry `i` resolves to slot `c` and its key is lexicographically least
/// among the entries of that slot.
pub open spec fn is_min_alias(
    r: Seq<(Seq<u8>, Seq<u8>)>,
    s: Seq<(Seq<u8>, Seq<Seq<u8>>)>,
    c: Seq<u8>,
    i: int,
) -> bool {
    &&& 0 <= i < s.len()
    &&& canon_of(r, s[i].0) == c
    &&& forall|j: int|
        0 <= j < s.len() && canon_of(r, (#[trigger] s[j]).0) == c && s[j].0 != s[i].0 ==> lex_lt(
            s[i].0,
            s[j].0,
        )
}

proof fn lemma_contains_push(
    t: Seq<(Seq<u8>, Seq<Seq<u8>>)>,
    p: (Seq<u8>, Seq<Seq<u8>>),
    q: (Seq<u8>, Seq<Seq<u8>>),
)
    ensures
        t.push(p).contains(q) <==> (t.contains(q) || q == p),
{
    if t.contains(q) {
        let i = choose|i: int| 0 <= i < t.len() && t[i] == q;
        assert(t.push(p)[i] == q);
    }
    assert(t.push(p)[t.len() as int] == p);
    if t.push(p).contains(q) {
        let i = choose|i: int| 0 <= i < t.push(p).len() && t.push(p)[i] == q;
        if i < t.len() {
            assert(t[i] == q);
        }
    }
}

/// A slot keyed elsewhere is untouched by pushing `p`.
proof fn lemma_slot_ok_other(
    r: Seq<(Seq<u8>, Seq<u8>)>,
    t: Seq<(Seq<u8>, Seq<Seq<u8>>)>,
    p: (Seq<u8>, Seq<Seq<u8>>),
    e: (Seq<u8>, Seq<u8>, Seq<Seq<u8>>),
)
    requires
        slot_ok(r, t, e),
        canon_of(r, p.0) != e.0,
    ensures
        slot_ok(r, t.push(p), e),
{
    let t2 = t.push(p);
    lemma_contains_push(t, p, (e.1, e.2));
    assert forall|q: (Seq<u8>, Seq<Seq<u8>>)|
        #[trigger] t2.contains(q) && q.0 == e.0 && canon_of(r, q.0) == q.0 implies e.1 == e.0
        && e.2 == q.1 by {
        lemma_contains_push(t, p, q);
        if q == p {
            assert(canon_of(r, p.0) == p.0 && p.0 == e.0);
        }
    }
    if e.1 != e.0 {
        assert forall|q: (Seq<u8>, Seq<Seq<u8>>)|
            #[trigger] t2.contains(q) && canon_of(r, q.0) == e.0 && q.0 != e.1 implies lex_lt(
            e.1,
            q.0,
        ) by {
            lemma_contains_push(t, p, q);
        }
    }
}

proof fn lemma_slot_keys_distinct(w: Seq<(Seq<u8>, Seq<u8>, Seq<Seq<u8>>)>)
    requires
        sorted_slots(w),
    ensures
        forall|a: int, b: int|
            0 <= a < b < w.len() ==> (#[trigger] w[a]).0 != (#[trigger] w[b]).0,
{
    assert forall|a: int, b: int| 0 <= a < b < w.len() implies (#[trigger] w[a]).0 != (
    #[trigger] w[b]).0 by {
        lemma_lex_trichotomy(w[a].0, w[b].0);
    }
}

/// No entry of the processed prefix shares a key with the entry about to be
/// processed, since the input's keys are unique.
proof fn lemma_prefix_key_fresh(s: Seq<(Seq<u8>, Seq<Seq<u8>>)>, done: int)
    requires
        keys_unique(s),
        0 <= done < s.len(),
    ensures
        forall|q: (Seq<u8>, Seq<Seq<u8>>)|
            #[trigger] s.take(done).contains(q) ==> q.0 != s[done].0,
{
    let t = s.take(done);
    assert forall|q: (Seq<u8>, Seq<Seq<u8>>)| #[trigger] t.contains(q) implies q.0
        != s[done].0 by {
        let i = choose|i: int| 0 <= i < t.len() && t[i] == q;
        assert(s[i] == q);
    }
}

/// Dropping the source tags of a finished merge yields a mapping with the
/// stated guarantees.
proof fn lemma_describe_untag(
    r: Seq<(Seq<u8>, Seq<u8>)>,
    s: Seq<(Seq<u8>, Seq<Seq<u8>>)>,
    w: Seq<(Seq<u8>, Seq<u8>, Seq<Seq<u8>>)>,
    o: Seq<(Seq<u8>, Seq<Seq<u8>>)>,
)
    requires
        slots_describe(r, s, w),
        keys_unique(s),
        o.len() == w.len(),
        forall|j: int| 0 <= j < w.len() ==> o[j] == ((#[trigger] w[j]).0, w[j].2),
    ensures
        merged_describes(r, s, o),
{
    assert(sorted_keys(o)) by {
        assert(forall|j: int| 0 <= j < o.len() ==> (#[trigger] o[j]).0 == w[j].0);
    }
    lemma_sorted_implies_unique(o);
    // soundness: every result entry comes from an input entry of its slot
    assert forall|j: int| 0 <= j < o.len() implies slot_source(r, s, #[trigger] o[j]) by {
        assert(slot_ok(r, s, w[j]));
        assert(s.contains((w[j].1, w[j].2)));
        let i = choose|i: int| 0 <= i < s.len() && s[i] == (w[j].1, w[j].2);
        assert(canon_of(r, s[i].0) == o[j].0 && s[i].1 == o[j].1);
    }
    // domain completeness
    assert forall|i: int| 0 <= i < s.len() implies contains_key(
        o,
        canon_of(r, (#[trigger] s[i]).0),
    ) by {
        assert(s.contains(s[i]));
        let j = choose|j: int|
            0 <= j < w.len() && (#[trigger] w[j]).0 == canon_of(r, s[i].0);
        assert(o[j].0 == canon_of(r, s[i].0));
    }
    // canonical precedence, through lookup
    assert forall|i: int|
        0 <= i < s.len() && canon_of(r, (#[trigger] s[i]).0) == s[i].0 implies lookup_value(
        o,
        s[i].0,
    ) == Some(s[i].1) by {
        assert(s.contains(s[i]));
        let j = choose|j: int|
            0 <= j < w.len() && (#[trigger] w[j]).0 == canon_of(r, s[i].0);
        assert(slot_ok(r, s, w[j]));
        assert(w[j].1 == w[j].0 && w[j].2 == s[i].1);
        assert(o[j] == (s[i].0, s[i].1));
        lemma_lookup_index(o, s[i].0, j);
    }
    // minimal-alias tie break
    assert forall|j: int|
        0 <= j < o.len() && !has_canonical(r, s, (#[trigger] o[j]).0) implies min_alias_source(
        r,
        s,
        o[j],
    ) by {
        let c = o[j].0;
        assert(slot_ok(r, s, w[j]));
        if w[j].1 == c {
            assert(canon_of(r, c) == c);
            assert(s.contains((c, w[j].2)));
            let i0 = choose|i: int| 0 <= i < s.len() && s[i] == (c, w[j].2);
            assert(contains_key(s, c));
            assert(false);
        }
        assert(s.contains((w[j].1, w[j].2)));
        let i = choose|i: int| 0 <= i < s.len() && s[i] == (w[j].1, w[j].2);
        assert forall|j2: int|
            0 <= j2 < s.len() && canon_of(r, (#[trigger] s[j2]).0) == c && s[j2].0 != s[i].0
            implies lex_lt(s[i].0, s[j2].0) by {
            assert(s.contains(s[j2]));
        }
        assert(is_min_alias(r, s, c, i) && s[i].1 == o[j].1);
        assert(min_alias_source(r, s, o[j]));
    }
}

fn slots_lower_bound(slots: &Vec<(MimeId, MimeId, HandlerList)>, key: &MimeId) -> (p: usize)
    ensures
        p <= slots@.len(),
        forall|i: int| 0 <= i < p ==> lex_lt((#[trigger] slots_view(slots@)[i]).0, key@),
        p < slots@.len() ==> !lex_lt(slots_view(slots@)[p as int].0, key@),
{
    let n = slots.len();
    let mut p: usize = 0;
    while p < n
        invariant
            n == slots@.len(),
            p <= n,
            forall|i: int| 0 <= i < p ==> lex_lt((#[trigger] slots_view(slots@)[i]).0, key@),
        decreases n - p,
    {
        if !slots[p].0.lt(key) {
            proof {
                assert(slots_view(slots@)[p as int].0 == slots@[p as int].0@);
            }
            return p;
        }
        proof {
            assert(slots_view(slots@)[p as int].0 == slots@[p as int].0@);
        }
        p = p + 1;
    }
    p
}

/// Folds the entries of `mime_map` into a mapping keyed only by canonical
/// identifiers. A canonical-keyed entry always wins its slot; among
/// alias-keyed entries the lexicographically smallest alias wins, so the
/// result depends only on which entries the input holds, never on their
/// order.
#[verifier::rlimit(60)]
pub fn unalias_mime_map(db: &AliasResolver, mime_map: &MimeMap) -> (res: MimeMap)
    requires
        db.wf(),
        mime_map.wf(),
    ensures
        res.wf(),
        merged_describes(db@, mime_map@, res@),
{
    let ghost s = mime_map@;
    proof {
        lemma_sorted_implies_unique(s);
    }
    let mut slots: Vec<(MimeId, MimeId, HandlerList)> = Vec::new();
    proof {
        assert(slots_view(slots@) =~= Seq::<(Seq<u8>, Seq<u8>, Seq<Seq<u8>>)>::empty());
        assert(s.take(0) =~= Seq::<(Seq<u8>, Seq<Seq<u8>>)>::empty());
    }
    let n = mime_map.len();
    let mut idx: usize = 0;
    while idx < n
        invariant
            db.wf(),
            mime_map.wf(),
            s == mime_map@,
            keys_unique(s),
            n == s.len(),
            idx <= n,
            slots_describe(db@, s.take(idx as int), slots_view(slots@)),
            slots_wf(slots_view(slots@)),
        decreases n - idx,
    {
        let ghost done = idx as int;
        let ghost t = s.take(done as int);
        let ghost w = slots_view(slots@);
        let ghost rv = db@;
        let m = mime_map.key_at(idx).duplicate();
        let v = mime_map.list_at(idx).duplicate();
        proof {
            assert((m@, v@) == s[done as int]);
            assert(mime_valid(s[done as int].0) && hlist_wf(s[done as int].1));
            lemma_prefix_key_fresh(s, done as int);
            lemma_slot_keys_distinct(w);
        }
        let c = db.canonicalize(&m);
        let ghost p = (m@, v@);
        let ghost cv = c@;
        let ghost t2 = s.take(done as int + 1);
        proof {
            assert(t2 =~= t.push(p));
            assert(canon_of(rv, p.0) == cv);
        }
        let pos = slots_lower_bound(&slots, &c);
        let found = pos < slots.len() && slots[pos].0.same(&c);
        proof {
            if pos < slots.len() {
                assert(w[pos as int].0 == slots@[pos as int].0@);
            }
            if !found && pos < slots@.len() {
                lemma_lex_trichotomy(w[pos as int].0, cv);
            }
            if !found {
                assert forall|j: int| 0 <= j < w.len() implies (#[trigger] w[j]).0 != cv by {
                    if j >= pos as int {
                        if j > pos as int {
                            lemma_lex_trans(cv, w[pos as int].0, w[j].0);
                        }
                        lemma_lex_trichotomy(cv, w[j].0);
                    } else {
                        lemma_lex_trichotomy(w[j].0, cv);
                    }
                }
            }
        }
        if found {
            let do_replace = if m.same(&c) {
                true
            } else {
                let src_is_canon = slots[pos].1.same(&slots[pos].0);
                if src_is_canon {
                    false
                } else {
                    m.lt(&slots[pos].1)
                }
            };
            let ghost eold = w[pos as int];
            if do_replace {
                let ghost mv = m@;
                let ghost vv = v@;
                slots.set(pos, (c, m, v));
                proof {
                    let w2 = slots_view(slots@);
                    assert(w2 =~= w.update(pos as int, (cv, mv, vv)));
                    assert(forall|i: int| 0 <= i < w2.len() ==> (#[trigger] w2[i]).0 == w[i].0);
                    assert(sorted_slots(w2));
                    assert(slots_wf(w2));
                    assert forall|j: int| 0 <= j < w2.len() implies slot_ok(
                        rv,
                        t2,
                        #[trigger] w2[j],
                    ) by {
                        if j != pos as int {
                            assert(w2[j] == w[j]);
                            assert(canon_of(rv, p.0) == cv && cv == w[pos as int].0);
                            assert(w[j].0 != cv);
                            lemma_slot_ok_other(rv, t, p, w[j]);
                        } else {
                            let enew = w2[j];
                            assert(enew == (cv, mv, vv));
                            assert(t2.contains((mv, vv))) by {
                                assert(t2[done as int] == p);
                            }
                            if mv == cv {
                                // canonical entry claims the slot unconditionally
                                assert forall|q: (Seq<u8>, Seq<Seq<u8>>)|
                                    #[trigger] t2.contains(q) && q.0 == cv && canon_of(rv, q.0)
                                        == q.0 implies enew.1 == enew.0 && enew.2 == q.1 by {
                                    lemma_contains_push(t, p, q);
                                    if q != p {
                                        assert(t.contains(q) && q.0 == p.0);
                                        assert(false);
                                    }
                                }
                            } else {
                                // a smaller alias replaces the present alias
                                assert(slot_ok(rv, t, eold));
                                assert(eold.1 != eold.0);
                                assert(lex_lt(mv, eold.1));
                                assert forall|q: (Seq<u8>, Seq<Seq<u8>>)|
                                    #[trigger] t2.contains(q) && q.0 == cv && canon_of(rv, q.0)
                                        == q.0 implies enew.1 == enew.0 && enew.2 == q.1 by {
                                    lemma_contains_push(t, p, q);
                                    if q == p {
                                        assert(q.0 == mv && mv != cv);
                                        assert(false);
                                    } else {
                                        assert(eold.1 == eold.0);
                                        assert(false);
                                    }
                                }
                                assert forall|q: (Seq<u8>, Seq<Seq<u8>>)|
                                    #[trigger] t2.contains(q) && canon_of(rv, q.0) == cv && q.0
                                        != mv implies lex_lt(mv, q.0) by {
                                    lemma_contains_push(t, p, q);
                                    if q == p {
                                    } else {
                                        if q.0 == eold.1 {
                                        } else {
                                            assert(lex_lt(eold.1, q.0));
                                            lemma_lex_trans(mv, eold.1, q.0);
                                        }
                                    }
                                }
                            }
                        }
                    }
                    assert forall|q: (Seq<u8>, Seq<Seq<u8>>)| #[trigger] t2.contains(q)
                        implies exists|j: int|
                        0 <= j < w2.len() && (#[trigger] w2[j]).0 == canon_of(rv, q.0) by {
                        lemma_contains_push(t, p, q);
                        if q == p {
                            assert(w2[pos as int].0 == canon_of(rv, q.0));
                        } else {
                            let j = choose|j: int|
                                0 <= j < w.len() && (#[trigger] w[j]).0 == canon_of(rv, q.0);
                            assert(w2[j].0 == canon_of(rv, q.0));
                        }
                    }
                }
            } else {
                proof {
                    let w2 = slots_view(slots@);
                    assert(w2 == w);
                    assert(p.0 != cv);
                    assert forall|j: int| 0 <= j < w2.len() implies slot_ok(
                        rv,
                        t2,
                        #[trigger] w2[j],
                    ) by {
                        if j != pos as int {
                            assert(w[j].0 != cv);
                            lemma_slot_ok_other(rv, t, p, w[j]);
                        } else {
                            assert(slot_ok(rv, t, eold));
                            lemma_contains_push(t, p, (eold.1, eold.2));
                            assert forall|q: (Seq<u8>, Seq<Seq<u8>>)|
                                #[trigger] t2.contains(q) && q.0 == eold.0 && canon_of(rv, q.0)
                                    == q.0 implies eold.1 == eold.0 && eold.2 == q.1 by {
                                lemma_contains_push(t, p, q);
                                if q == p {
                                    assert(q.0 == p.0 && p.0 != cv && q.0 == eold.0 && eold.0 == cv);
                                    assert(false);
                                }
                            }
                            if eold.1 != eold.0 {
                                assert forall|q: (Seq<u8>, Seq<Seq<u8>>)|
                                    #[trigger] t2.contains(q) && canon_of(rv, q.0) == eold.0
                                        && q.0 != eold.1 implies lex_lt(eold.1, q.0) by {
                                    lemma_contains_push(t, p, q);
                                    if q == p {
                                        lemma_lex_trichotomy(p.0, eold.1);
                                    }
                                }
                            }
                        }
                    }
                    assert forall|q: (Seq<u8>, Seq<Seq<u8>>)| #[trigger] t2.contains(q)
                        implies exists|j: int|
                        0 <= j < w2.len() && (#[trigger] w2[j]).0 == canon_of(rv, q.0) by {
                        lemma_contains_push(t, p, q);
                        if q == p {
                            assert(w2[pos as int].0 == canon_of(rv, q.0));
                        }
                    }
                }
            }
        } else {
            let ghost mv = m@;
            let ghost vv = v@;
            proof {
                if pos < slots@.len() {
                    assert(lex_lt(cv, w[pos as int].0));
                }
            }
            slots.insert(pos, (c, m, v));
            proof {
                let w2 = slots_view(slots@);
                assert(w2 =~= w.take(pos as int) + seq![(cv, mv, vv)] + w.skip(pos as int));
                let pi = pos as int;
                assert forall|a: int, b: int| 0 <= a < b < w2.len() implies lex_lt(
                    (#[trigger] w2[a]).0,
                    (#[trigger] w2[b]).0,
                ) by {
                    if a < pi && b == pi {
                    } else if a == pi && b > pi {
                        assert(w2[b] == w[b - 1]);
                        if b - 1 > pi {
                            lemma_lex_trans(cv, w[pi].0, w[b - 1].0);
                        }
                    } else if a < pi && b > pi {
                        assert(w2[b] == w[b - 1]);
                        if b - 1 == pi {
                        } else {
                            assert(lex_lt(w[a].0, w[b - 1].0));
                        }
                    } else if a > pi && b > pi {
                        assert(w2[a] == w[a - 1] && w2[b] == w[b - 1]);
                    }
                }
                assert(slots_wf(w2)) by {
                    assert(forall|j: int| 0 <= j < pi ==> #[trigger] w2[j] == w[j]);
                    assert(forall|j: int|
                        pi < j < w2.len() ==> #[trigger] w2[j] == w[j - 1]);
                    assert(w2[pi] == (cv, mv, vv));
                }
                assert forall|j: int| 0 <= j < w2.len() implies slot_ok(
                    rv,
                    t2,
                    #[trigger] w2[j],
                ) by {
                    if j != pi {
                        let jold = if j < pi { j } else { j - 1 };
                        assert(w2[j] == w[jold]);
                        assert(w[jold].0 != cv);
                        lemma_slot_ok_other(rv, t, p, w[jold]);
                    } else {
                        let enew = w2[pi];
                        assert(enew == (cv, mv, vv));
                        assert(t2.contains((mv, vv))) by {
                            assert(t2[done as int] == p);
                        }
                        assert forall|q: (Seq<u8>, Seq<Seq<u8>>)|
                            #[trigger] t2.contains(q) && q.0 == cv && canon_of(rv, q.0) == q.0
                            implies enew.1 == enew.0 && enew.2 == q.1 by {
                            lemma_contains_push(t, p, q);
                            if q == p {
                                assert(mv == cv);
                            } else {
                                let jj = choose|jj: int|
                                    0 <= jj < w.len() && (#[trigger] w[jj]).0 == canon_of(
                                        rv,
                                        q.0,
                                    );
                                assert(false);
                            }
                        }
                        if mv != cv {
                            assert forall|q: (Seq<u8>, Seq<Seq<u8>>)|
                                #[trigger] t2.contains(q) && canon_of(rv, q.0) == cv && q.0
                                    != mv implies lex_lt(mv, q.0) by {
                                lemma_contains_push(t, p, q);
                                if q == p {
                                } else {
                                    let jj = choose|jj: int|
                                        0 <= jj < w.len() && (#[trigger] w[jj]).0 == canon_of(
                                            rv,
                                            q.0,
                                        );
                                    assert(false);
                                }
                            }
                        }
                    }
                }
                assert forall|q: (Seq<u8>, Seq<Seq<u8>>)| #[trigger] t2.contains(q)
                    implies exists|j: int|
                    0 <= j < w2.len() && (#[trigger] w2[j]).0 == canon_of(rv, q.0) by {
                    lemma_contains_push(t, p, q);
                    if q == p {
                        assert(w2[pi].0 == canon_of(rv, q.0));
                    } else {
                        let j = choose|j: int|
                            0 <= j < w.len() && (#[trigger] w[j]).0 == canon_of(rv, q.0);
                        if j < pi {
                            assert(w2[j].0 == canon_of(rv, q.0));
                        } else {
                            assert(w2[j + 1].0 == canon_of(rv, q.0));
                        }
                    }
                }
            }
        }
        idx = idx + 1;
    }
    let ghost full_w = slots_view(slots@);
    proof {
        assert(s.take(s.len() as int) =~= s);
    }
    let mut out: Vec<(MimeId, HandlerList)> = Vec::new();
    let nw = slots.len();
    let mut i: usize = 0;
    while i < nw
        invariant
            nw == slots@.len(),
            i <= nw,
            full_w == slots_view(slots@),
            out@.len() == i,
            forall|j: int|
                0 <= j < i ==> entries_view(out@)[j] == ((#[trigger] full_w[j]).0, full_w[j].2),
        decreases nw - i,
    {
        let key = slots[i].0.duplicate();
        let hl = slots[i].2.duplicate();
        out.push((key, hl));
        i = i + 1;
    }
    let ghost o = entries_view(out@);
    proof {
        assert(o.len() == full_w.len());
        assert(forall|j: int|
            0 <= j < full_w.len() ==> o[j] == ((#[trigger] full_w[j]).0, full_w[j].2));
        lemma_slot_keys_distinct(full_w);
        assert(sorted_keys(o)) by {
            assert(forall|j: int| 0 <= j < o.len() ==> (#[trigger] o[j]).0 == full_w[j].0);
        }
        assert(entries_wf(o)) by {
            assert(forall|j: int|
                0 <= j < o.len() ==> (#[trigger] o[j]).0 == full_w[j].0 && o[j].1
                    == full_w[j].2);
        }
        lemma_describe_untag(db@, s, full_w, o);
    }
    MimeMap::from_sorted(out)
}

/// Two key-sorted sequences holding the same entries are equal.
pub proof fn lemma_sorted_same_entries(
    a: Seq<(Seq<u8>, Seq<Seq<u8>>)>,
    b: Seq<(Seq<u8>, Seq<Seq<u8>>)>,
)
    requires
        sorted_keys(a),
        sorted_keys(b),
        forall|e: (Seq<u8>, Seq<Seq<u8>>)| a.contains(e) <==> b.contains(e),
    ensures
        a == b,
    decreases a.len(),
{
    if a.len() == 0 {
        if b.len() > 0 {
            assert(b.contains(b[0]));
            assert(a.contains(b[0]));
        }
        assert(a =~= b);
    } else {
        assert(a.contains(a[0]));
        assert(b.contains(a[0]));
        let j = choose|j: int| 0 <= j < b.len() && b[j] == a[0];
        assert(b.contains(b[0]));
        assert(a.contains(b[0]));
        let i = choose|i: int| 0 <= i < a.len() && a[i] == b[0];
        if i > 0 && j > 0 {
            assert(lex_lt(a[0].0, a[i].0));
            assert(lex_lt(b[0].0, b[j].0));
            lemma_lex_trichotomy(a[0].0, b[0].0);
            assert(false);
        }
        assert(a[0] == b[0]);
        let at = a.skip(1);
        let bt = b.skip(1);
        assert(forall|k: int| 0 <= k < at.len() ==> #[trigger] at[k] == a[k + 1]);
        assert(forall|k: int| 0 <= k < bt.len() ==> #[trigger] bt[k] == b[k + 1]);
        assert forall|e: (Seq<u8>, Seq<Seq<u8>>)| at.contains(e) <==> bt.contains(e) by {
            if at.contains(e) {
                let k = choose|k: int| 0 <= k < at.len() && at[k] == e;
                assert(a[k + 1] == e);
                assert(a.contains(e));
                assert(b.contains(e));
                let k2 = choose|k2: int| 0 <= k2 < b.len() && b[k2] == e;
                if k2 == 0 {
                    assert(e == a[0]);
                    assert(lex_lt(a[0].0, a[k + 1].0));
                    lemma_lex_trichotomy(a[0].0, e.0);
                    assert(false);
                }
                assert(bt[k2 - 1] == e);
                assert(bt.contains(e));
            }
            if bt.contains(e) {
                let k = choose|k: int| 0 <= k < bt.len() && bt[k] == e;
                assert(b[k + 1] == e);
                assert(b.contains(e));
                assert(a.contains(e));
                let k2 = choose|k2: int| 0 <= k2 < a.len() && a[k2] == e;
                if k2 == 0 {
                    assert(e == b[0]);
                    assert(lex_lt(b[0].0, b[k + 1].0));
                    lemma_lex_trichotomy(b[0].0, e.0);
                    assert(false);
                }
                assert(at[k2 - 1] == e);
                assert(at.contains(e));
            }
        }
        lemma_sorted_same_entries(at, bt);
        assert forall|k: int| 0 <= k < a.len() implies a[k] == b[k] by {
            if k > 0 {
                assert(a[k] == at[k - 1]);
                assert(b[k] == bt[k - 1]);
            }
        }
        assert(a =~= b);
    }
}

proof fn lemma_merge_subset(
    r: Seq<(Seq<u8>, Seq<u8>)>,
    s1: Seq<(Seq<u8>, Seq<Seq<u8>>)>,
    s2: Seq<(Seq<u8>, Seq<Seq<u8>>)>,
    o1: Seq<(Seq<u8>, Seq<Seq<u8>>)>,
    o2: Seq<(Seq<u8>, Seq<Seq<u8>>)>,
)
    requires
        keys_unique(s1),
        keys_unique(s2),
        forall|e: (Seq<u8>, Seq<Seq<u8>>)| s1.contains(e) <==> s2.contains(e),
        merged_describes(r, s1, o1),
        merged_describes(r, s2, o2),
    ensures
        forall|e: (Seq<u8>, Seq<Seq<u8>>)| #[trigger] o1.contains(e) ==> o2.contains(e),
{
    lemma_sorted_implies_unique(o1);
    lemma_sorted_implies_unique(o2);
    assert forall|e: (Seq<u8>, Seq<Seq<u8>>)| #[trigger] o1.contains(e) implies o2.contains(
        e,
    ) by {
        let j = choose|j: int| 0 <= j < o1.len() && o1[j] == e;
        let c = e.0;
        assert(slot_source(r, s1, o1[j]));
        let i1 = choose|i: int|
            0 <= i < s1.len() && canon_of(r, (#[trigger] s1[i]).0) == c && s1[i].1 == e.1;
        assert(s1.contains(s1[i1]));
        assert(s2.contains(s1[i1]));
        let i2 = choose|i: int| 0 <= i < s2.len() && s2[i] == s1[i1];
        assert(contains_key(o2, canon_of(r, s2[i2].0)));
        let j2 = choose|j2: int| 0 <= j2 < o2.len() && (#[trigger] o2[j2]).0 == c;
        if has_canonical(r, s1, c) {
            let ic1 = choose|i: int| 0 <= i < s1.len() && (#[trigger] s1[i]).0 == c;
            assert(canon_of(r, s1[ic1].0) == s1[ic1].0);
            assert(lookup_value(o1, c) == Some(s1[ic1].1));
            lemma_lookup_index(o1, c, j);
            assert(e.1 == s1[ic1].1);
            assert(s1.contains(s1[ic1]));
            assert(s2.contains(s1[ic1]));
            let ic2 = choose|i: int| 0 <= i < s2.len() && s2[i] == s1[ic1];
            assert(canon_of(r, s2[ic2].0) == s2[ic2].0);
            assert(lookup_value(o2, c) == Some(s2[ic2].1));
            lemma_lookup_index(o2, c, j2);
            assert(o2[j2] == e);
        } else {
            if has_canonical(r, s2, c) {
                let ic = choose|i: int| 0 <= i < s2.len() && (#[trigger] s2[i]).0 == c;
                assert(s2.contains(s2[ic]));
                assert(s1.contains(s2[ic]));
                let k = choose|i: int| 0 <= i < s1.len() && s1[i] == s2[ic];
                assert(contains_key(s1, c));
                assert(false);
            }
            assert(min_alias_source(r, s1, o1[j]));
            let m1 = choose|i: int| #[trigger] is_min_alias(r, s1, c, i) && s1[i].1 == o1[j].1;
            assert(min_alias_source(r, s2, o2[j2]));
            let m2 = choose|i: int| #[trigger] is_min_alias(r, s2, c, i) && s2[i].1 == o2[j2].1;
            assert(s1.contains(s1[m1]));
            assert(s2.contains(s1[m1]));
            let k2 = choose|i: int| 0 <= i < s2.len() && s2[i] == s1[m1];
            if s2[m2].0 != s1[m1].0 {
                assert(canon_of(r, s2[k2].0) == c);
                assert(lex_lt(s2[m2].0, s2[k2].0));
                assert(s2.contains(s2[m2]));
                assert(s1.contains(s2[m2]));
                let k1 = choose|i: int| 0 <= i < s1.len() && s1[i] == s2[m2];
                assert(canon_of(r, s1[k1].0) == c);
                assert(lex_lt(s1[m1].0, s1[k1].0));
                lemma_lex_trichotomy(s1[m1].0, s2[m2].0);
                assert(false);
            }
            if k2 != m2 {
                assert((#[trigger] s2[k2]).0 == (#[trigger] s2[m2]).0);
                assert(false);
            }
            assert(s1[m1] == s2[m2]);
            assert(o2[j2] == e);
        }
        assert(o2.contains(e));
    }
}

/// Determinism under permutation: two merges over inputs holding the same set
/// of entries, with unique keys each, yield the same mapping — whatever order
/// the backing storage enumerated the entries in.
pub proof fn lemma_merge_deterministic(
    r: Seq<(Seq<u8>, Seq<u8>)>,
    s1: Seq<(Seq<u8>, Seq<Seq<u8>>)>,
    s2: Seq<(Seq<u8>, Seq<Seq<u8>>)>,
    o1: Seq<(Seq<u8>, Seq<Seq<u8>>)>,
    o2: Seq<(Seq<u8>, Seq<Seq<u8>>)>,
)
    requires
        keys_unique(s1),
        keys_unique(s2),
        forall|e: (Seq<u8>, Seq<Seq<u8>>)| s1.contains(e) <==> s2.contains(e),
        merged_describes(r, s1, o1),
        merged_describes(r, s2, o2),
    ensures
        o1 == o2,
{
    lemma_merge_subset(r, s1, s2, o1, o2);
    lemma_merge_subset(r, s2, s1, o2, o1);
    lemma_sorted_same_entries(o1, o2);
}

/// Canonical precedence: when the input holds an entry keyed by a canonical
/// identifier, the merged mapping holds exactly that entry's value at that
/// key, regardless of what aliases are present or in what order.
pub proof fn lemma_canonical_precedence(
    r: Seq<(Seq<u8>, Seq<u8>)>,
    s: Seq<(Seq<u8>, Seq<Seq<u8>>)>,
    o: Seq<(Seq<u8>, Seq<Seq<u8>>)>,
    c: Seq<u8>,
    v: Seq<Seq<u8>>,
)
    requires
        merged_describes(r, s, o),
        s.contains((c, v)),
        canon_of(r, c) == c,
    ensures
        lookup_value(o, c) == Some(v),
{
    let i = choose|i: int| 0 <= i < s.len() && s[i] == (c, v);
    assert(canon_of(r, (#[trigger] s[i]).0) == s[i].0);
}

/// Alphabetical tie-break: when a slot holds exactly two alias-keyed entries
/// and no canonical-keyed one, the lexicographically smaller alias wins.
pub proof fn lemma_alias_tie_break(
    r: Seq<(Seq<u8>, Seq<u8>)>,
    s: Seq<(Seq<u8>, Seq<Seq<u8>>)>,
    o: Seq<(Seq<u8>, Seq<Seq<u8>>)>,
    c: Seq<u8>,
    a1: Seq<u8>,
    v1: Seq<Seq<u8>>,
    a2: Seq<u8>,
    v2: Seq<Seq<u8>>,
)
    requires
        merged_describes(r, s, o),
        keys_unique(s),
        s.contains((a1, v1)),
        s.contains((a2, v2)),
        a1 != a2,
        canon_of(r, a1) == c,
        canon_of(r, a2) == c,
        !contains_key(s, c),
        forall|i: int|
            0 <= i < s.len() && canon_of(r, (#[trigger] s[i]).0) == c ==> s[i] == (a1, v1)
                || s[i] == (a2, v2),
    ensures
        lookup_value(o, c) == if lex_lt(a1, a2) {
            Some(v1)
        } else {
            Some(v2)
        },
{
    lemma_sorted_implies_unique(o);
    let i1 = choose|i: int| 0 <= i < s.len() && s[i] == (a1, v1);
    let i2 = choose|i: int| 0 <= i < s.len() && s[i] == (a2, v2);
    assert(canon_of(r, (#[trigger] s[i1]).0) == c);
    assert(contains_key(o, c));
    let j = choose|j: int| 0 <= j < o.len() && (#[trigger] o[j]).0 == c;
    assert(!has_canonical(r, s, c));
    assert(min_alias_source(r, s, o[j]));
    let m = choose|i: int| #[trigger] is_min_alias(r, s, c, i) && s[i].1 == o[j].1;
    lemma_lookup_index(o, c, j);
    lemma_lex_trichotomy(a1, a2);
    if s[m] == (a1, v1) {
        assert(lex_lt(a1, a2)) by {
            assert(canon_of(r, (#[trigger] s[i2]).0) == c && s[i2].0 != s[m].0);
        }
    } else {
        assert(s[m] == (a2, v2));
        assert(lex_lt(a2, a1)) by {
            assert(canon_of(r, (#[trigger] s[i1]).0) == c && s[i1].0 != s[m].0);
        }
    }
}

/// Idempotence: merging a mapping whose keys are all already canonical
/// returns it unchanged.
pub proof fn lemma_merge_idempotent(
    r: Seq<(Seq<u8>, Seq<u8>)>,
    s: Seq<(Seq<u8>, Seq<Seq<u8>>)>,
    o: Seq<(Seq<u8>, Seq<Seq<u8>>)>,
)
    requires
        merged_describes(r, s, o),
        sorted_keys(s),
        forall|i: int| 0 <= i < s.len() ==> canon_of(r, (#[trigger] s[i]).0) == s[i].0,
    ensures
        o == s,
{
    lemma_sorted_implies_unique(s);
    lemma_sorted_implies_unique(o);
    assert forall|e: (Seq<u8>, Seq<Seq<u8>>)| o.contains(e) <==> s.contains(e) by {
        if o.contains(e) {
            let j = choose|j: int| 0 <= j < o.len() && o[j] == e;
            assert(slot_source(r, s, o[j]));
            let i = choose|i: int|
                0 <= i < s.len() && canon_of(r, (#[trigger] s[i]).0) == e.0 && s[i].1 == e.1;
            assert(s[i] == e);
        }
        if s.contains(e) {
            let i = choose|i: int| 0 <= i < s.len() && s[i] == e;
            assert(canon_of(r, (#[trigger] s[i]).0) == s[i].0);
            assert(lookup_value(o, e.0) == Some(e.1));
            crate::table::lemma_lookup_some_contains(o, e.0);
            let j = choose|j: int| 0 <= j < o.len() && (#[trigger] o[j]).0 == e.0;
            lemma_lookup_index(o, e.0, j);
            assert(o[j] == e);
        }
    }
    lemma_sorted_same_entries(o, s);
}

/// The canonical view of an association table: every lookup and mutation
/// first unaliases its MIME identifier, so callers see one deterministic
/// mapping however the persisted file keyed its entries.
pub struct CanonicalMimeApps {
    pub db: AliasResolver,
    pub mimeapps: MimeApps,
}

impl CanonicalMimeApps {
    pub open spec fn wf(&self) -> bool {
        self.db.wf() && self.mimeapps.wf()
    }

    /// Canonicalizes each of the three mappings of `mimeapps` independently
    /// against the alias table `db`.
    pub fn from_parts(db: AliasResolver, mimeapps: MimeApps) -> (r: CanonicalMimeApps)
        requires
            db.wf(),
            mimeapps.wf(),
        ensures
            r.wf(),
            r.db@ == db@,
            merged_describes(db@, mimeapps.added_associations@, r.mimeapps.added_associations@),
            merged_describes(
                db@,
                mimeapps.removed_associations@,
                r.mimeapps.removed_associations@,
            ),
            merged_describes(db@, mimeapps.default_apps@, r.mimeapps.default_apps@),
    {
        let added_associations = unalias_mime_map(&db, &mimeapps.added_associations);
        let removed_associations = unalias_mime_map(&db, &mimeapps.removed_associations);
        let default_apps = unalias_mime_map(&db, &mimeapps.default_apps);
        CanonicalMimeApps {
            db,
            mimeapps: MimeApps { added_associations, removed_associations, default_apps },
        }
    }

    /// Appends `handler` as a fallback default for the canonical form of
    /// `mime`.
    pub fn add_handler(&mut self, mime: MimeId, handler: Handler)
        requires
            old(self).wf(),
            mime.wf(),
            handler.wf(),
        ensures
            final(self).wf(),
            final(self).db@ == old(self).db@,
            final(self).mimeapps.default_apps@ == insert_entry(
                old(self).mimeapps.default_apps@,
                canon_of(old(self).db@, mime@),
                add_value(
                    old(self).mimeapps.default_apps@,
                    canon_of(old(self).db@, mime@),
                    handler@,
                ),
            ),
            final(self).mimeapps.added_associations@ == old(self).mimeapps.added_associations@,
            final(self).mimeapps.removed_associations@ == old(
                self,
            ).mimeapps.removed_associations@,
    {
        let c = self.db.canonicalize(&mime);
        self.mimeapps.add_handler(c, handler);
    }

    /// Replaces the default list for the canonical form of `mime` with the
    /// singleton `handler`.
    pub fn set_handler(&mut self, mime: MimeId, handler: Handler)
        requires
            old(self).wf(),
            mime.wf(),
            handler.wf(),
        ensures
            final(self).wf(),
            final(self).db@ == old(self).db@,
            final(self).mimeapps.default_apps@ == insert_entry(
                old(self).mimeapps.default_apps@,
                canon_of(old(self).db@, mime@),
                seq![handler@],
            ),
            final(self).mimeapps.added_associations@ == old(self).mimeapps.added_associations@,
            final(self).mimeapps.removed_associations@ == old(
                self,
            ).mimeapps.removed_associations@,
    {
        let c = self.db.canonicalize(&mime);
        self.mimeapps.set_handler(c, handler);
    }

    /// Deletes the default list for the canonical form of `mime`; reports
    /// whether anything was deleted, so a caller persists only then.
    pub fn remove_handler(&mut self, mime: &MimeId) -> (removed: bool)
        requires
            old(self).wf(),
            mime.wf(),
        ensures
            final(self).wf(),
            final(self).db@ == old(self).db@,
            final(self).mimeapps.default_apps@ == remove_entry(
                old(self).mimeapps.default_apps@,
                canon_of(old(self).db@, mime@),
            ),
            removed == contains_key(
                old(self).mimeapps.default_apps@,
                canon_of(old(self).db@, mime@),
            ),
            final(self).mimeapps.added_associations@ == old(self).mimeapps.added_associations@,
            final(self).mimeapps.removed_associations@ == old(
                self,
            ).mimeapps.removed_associations@,
    {
        let c = self.db.canonicalize(mime);
        self.mimeapps.remove_handler(&c)
    }

    /// The default handler for the canonical form of `mime`.
    pub fn get_handler(&self, mime: &MimeId) -> (r: Result<Handler, Error>)
        requires
            self.wf(),
            mime.wf(),
        ensures
            match r {
                Ok(h) => lookup_value(
                    self.mimeapps.default_apps@,
                    canon_of(self.db@, mime@),
                ) matches Some(v) && v.len() > 0 && h@ == v[0],
                Err(e) => !contains_key(
                    self.mimeapps.default_apps@,
                    canon_of(self.db@, mime@),
                ) && (e matches Error::NotFound(b) && b@ == canon_of(self.db@, mime@)),
            },
    {
        let c = self.db.canonicalize(mime);
        self.mimeapps.get_handler(&c)
    }
}


} // verus!
