//! The raw association table: three independent mappings from MIME identifier
//! to an ordered, deduplicated handler list, kept sorted by identifier so that
//! serialization is reproducible. Keys are unique within one mapping; nothing
//! at this layer prevents two aliases of the same underlying type from
//! appearing as distinct keys — that is the canonicalizer's concern.
use vstd::prelude::*;
use crate::error::Error;
use crate::ident::{handler_valid, mime_valid, Handler, MimeId};
use crate::order::{lex_lt, lemma_lex_trans, lemma_lex_trichotomy};

verus! {

/// A well-formed handler list view: nonempty, valid tokens, no duplicates
/// (first occurrence wins), order meaningful — position 0 is the default.
pub open spec fn hlist_wf(v: Seq<Seq<u8>>) -> bool {
    &&& v.len() > 0
    &&& forall|i: int| 0 <= i < v.len() ==> handler_valid(#[trigger] v[i])
    &&& forall|i: int, j: int| 0 <= i < j < v.len() ==> v[i] != v[j]
}

/// The mathematical view of a handler vector: the sequence of name strings.
pub open spec fn hl_view(items: Seq<Handler>) -> Seq<Seq<u8>> {
    Seq::new(items.len(), |i: int| items[i]@)
}

/// The mathematical view of an entry vector: `(key bytes, handler names)`.
pub open spec fn entries_view(v: Seq<(MimeId, HandlerList)>) -> Seq<(Seq<u8>, Seq<Seq<u8>>)> {
    Seq::new(v.len(), |i: int| (v[i].0@, v[i].1@))
}

pub open spec fn contains_key(s: Seq<(Seq<u8>, Seq<Seq<u8>>)>, k: Seq<u8>) -> bool {
    exists|i: int| 0 <= i < s.len() && (#[trigger] s[i]).0 == k
}

/// First-match lookup of `k` among the entries.
pub open spec fn lookup_value(s: Seq<(Seq<u8>, Seq<Seq<u8>>)>, k: Seq<u8>) -> Option<
    Seq<Seq<u8>>,
>
    decreases s.len(),
{
    if s.len() == 0 {
        None
    } else if s[0].0 == k {
        Some(s[0].1)
    } else {
        lookup_value(s.skip(1), k)
    }
}

pub open spec fn sorted_keys(s: Seq<(Seq<u8>, Seq<Seq<u8>>)>) -> bool {
    forall|i: int, j: int|
        0 <= i < j < s.len() ==> lex_lt((#[trigger] s[i]).0, (#[trigger] s[j]).0)
}

pub open spec fn keys_unique(s: Seq<(Seq<u8>, Seq<Seq<u8>>)>) -> bool {
    forall|i: int, j: int| 0 <= i < j < s.len() ==> (#[trigger] s[i]).0 != (#[trigger] s[j]).0
}

/// Every key a valid MIME identifier, every value a well-formed handler list.
pub open spec fn entries_wf(s: Seq<(Seq<u8>, Seq<Seq<u8>>)>) -> bool {
    forall|i: int|
        0 <= i < s.len() ==> mime_valid((#[trigger] s[i]).0) && hlist_wf(s[i].1)
}

pub open spec fn map_wf(s: Seq<(Seq<u8>, Seq<Seq<u8>>)>) -> bool {
    sorted_keys(s) && entries_wf(s)
}

/// Insertion into a key-sorted entry sequence, replacing an equal key.
pub open spec fn insert_entry(
    s: Seq<(Seq<u8>, Seq<Seq<u8>>)>,
    k: Seq<u8>,
    v: Seq<Seq<u8>>,
) -> Seq<(Seq<u8>, Seq<Seq<u8>>)>
    decreases s.len(),
{
    if s.len() == 0 {
        seq![(k, v)]
    } else if s[0].0 == k {
        seq![(k, v)] + s.skip(1)
    } else if lex_lt(k, s[0].0) {
        seq![(k, v)] + s
    } else {
        seq![s[0]] + insert_entry(s.skip(1), k, v)
    }
}

/// Removal of the first entry keyed `k`, if any.
pub open spec fn remove_entry(s: Seq<(Seq<u8>, Seq<Seq<u8>>)>, k: Seq<u8>) -> Seq<
    (Seq<u8>, Seq<Seq<u8>>),
>
    decreases s.len(),
{
    if s.len() == 0 {
        s
    } else if s[0].0 == k {
        s.skip(1)
    } else {
        seq![s[0]] + remove_entry(s.skip(1), k)
    }
}

/// The handler list that `add` leaves at key `k`: the present list with `h`
/// appended unless already present, else the singleton `h`.
pub open spec fn add_value(s: Seq<(Seq<u8>, Seq<Seq<u8>>)>, k: Seq<u8>, h: Seq<u8>) -> Seq<
    Seq<u8>,
> {
    match lookup_value(s, k) {
        Some(v) => if v.contains(h) {
            v
        } else {
            v.push(h)
        },
        None => seq![h],
    }
}

pub proof fn lemma_sorted_implies_unique(s: Seq<(Seq<u8>, Seq<Seq<u8>>)>)
    requires
        sorted_keys(s),
    ensures
        keys_unique(s),
{
    assert forall|i: int, j: int| 0 <= i < j < s.len() implies (#[trigger] s[i]).0 != (
    #[trigger] s[j]).0 by {
        lemma_lex_trichotomy(s[i].0, s[j].0);
    }
}

pub proof fn lemma_lookup_absent(s: Seq<(Seq<u8>, Seq<Seq<u8>>)>, k: Seq<u8>)
    requires
        forall|i: int| 0 <= i < s.len() ==> (#[trigger] s[i]).0 != k,
    ensures
        lookup_value(s, k) is None,
    decreases s.len(),
{
    if s.len() > 0 {
        lemma_lookup_absent(s.skip(1), k);
    }
}

pub proof fn lemma_lookup_index(s: Seq<(Seq<u8>, Seq<Seq<u8>>)>, k: Seq<u8>, i: int)
    requires
        keys_unique(s),
        0 <= i < s.len(),
        s[i].0 == k,
    ensures
        lookup_value(s, k) == Some(s[i].1),
    decreases s.len(),
{
    if i == 0 {
    } else {
        lemma_lookup_index(s.skip(1), k, i - 1);
    }
}

pub proof fn lemma_lookup_some_contains(s: Seq<(Seq<u8>, Seq<Seq<u8>>)>, k: Seq<u8>)
    ensures
        (lookup_value(s, k) is Some) <==> contains_key(s, k),
    decreases s.len(),
{
    if s.len() > 0 {
        lemma_lookup_some_contains(s.skip(1), k);
        if s[0].0 != k {
            if contains_key(s, k) {
                let i = choose|i: int| 0 <= i < s.len() && (#[trigger] s[i]).0 == k;
                assert(s.skip(1)[i - 1].0 == k);
            }
            if contains_key(s.skip(1), k) {
                let i = choose|i: int|
                    0 <= i < s.skip(1).len() && (#[trigger] s.skip(1)[i]).0 == k;
                assert(s[i + 1].0 == k);
            }
        }
    }
}

/// Where the insertion lands, given the first position `p` whose key is not
/// below `k`.
pub proof fn lemma_insert_entry_at(
    s: Seq<(Seq<u8>, Seq<Seq<u8>>)>,
    k: Seq<u8>,
    v: Seq<Seq<u8>>,
    p: int,
)
    requires
        sorted_keys(s),
        0 <= p <= s.len(),
        forall|i: int| 0 <= i < p ==> lex_lt((#[trigger] s[i]).0, k),
        p < s.len() ==> !lex_lt(s[p].0, k),
    ensures
        p < s.len() && s[p].0 == k ==> insert_entry(s, k, v) == s.update(p, (k, v)),
        !(p < s.len() && s[p].0 == k) ==> insert_entry(s, k, v) == s.take(p) + seq![(k, v)]
            + s.skip(p),
    decreases s.len(),
{
    if p == 0 {
        if s.len() == 0 {
            assert(insert_entry(s, k, v) =~= s.take(0) + seq![(k, v)] + s.skip(0));
        } else if s[0].0 == k {
            assert(insert_entry(s, k, v) =~= s.update(0, (k, v)));
        } else {
            lemma_lex_trichotomy(s[0].0, k);
            assert(lex_lt(k, s[0].0));
            assert(insert_entry(s, k, v) =~= s.take(0) + seq![(k, v)] + s.skip(0));
        }
    } else {
        assert(lex_lt(s[0].0, k));
        lemma_lex_trichotomy(s[0].0, k);
        assert(s[0].0 != k && !lex_lt(k, s[0].0));
        let t = s.skip(1);
        assert(forall|i: int, j: int|
            0 <= i < j < t.len() ==> lex_lt((#[trigger] t[i]).0, (#[trigger] t[j]).0)) by {
            assert(forall|i: int| 0 <= i < t.len() ==> #[trigger] t[i] == s[i + 1]);
        }
        assert(forall|i: int| 0 <= i < p - 1 ==> lex_lt((#[trigger] t[i]).0, k)) by {
            assert(forall|i: int| 0 <= i < t.len() ==> #[trigger] t[i] == s[i + 1]);
        }
        lemma_insert_entry_at(t, k, v, p - 1);
        if p < s.len() && s[p].0 == k {
            assert(t[p - 1].0 == k);
            assert(insert_entry(s, k, v) =~= s.update(p, (k, v))) by {
                assert(insert_entry(t, k, v) == t.update(p - 1, (k, v)));
            }
        } else {
            assert(insert_entry(s, k, v) =~= s.take(p) + seq![(k, v)] + s.skip(p)) by {
                assert(insert_entry(t, k, v) == t.take(p - 1) + seq![(k, v)] + t.skip(p - 1));
                assert(forall|i: int| 0 <= i < t.len() ==> #[trigger] t[i] == s[i + 1]);
            }
        }
    }
}

pub proof fn lemma_remove_entry_first(s: Seq<(Seq<u8>, Seq<Seq<u8>>)>, k: Seq<u8>, i: int)
    requires
        0 <= i < s.len(),
        s[i].0 == k,
        forall|j: int| 0 <= j < i ==> (#[trigger] s[j]).0 != k,
    ensures
        remove_entry(s, k) == s.take(i) + s.skip(i + 1),
    decreases s.len(),
{
    if i == 0 {
        assert(remove_entry(s, k) =~= s.take(0) + s.skip(1));
    } else {
        let t = s.skip(1);
        assert(forall|j: int| 0 <= j < t.len() ==> #[trigger] t[j] == s[j + 1]);
        lemma_remove_entry_first(t, k, i - 1);
        assert(remove_entry(s, k) =~= s.take(i) + s.skip(i + 1)) by {
            assert(remove_entry(t, k) == t.take(i - 1) + t.skip(i));
        }
    }
}

pub proof fn lemma_remove_entry_absent(s: Seq<(Seq<u8>, Seq<Seq<u8>>)>, k: Seq<u8>)
    requires
        forall|i: int| 0 <= i < s.len() ==> (#[trigger] s[i]).0 != k,
    ensures
        remove_entry(s, k) == s,
    decreases s.len(),
{
    if s.len() > 0 {
        let t = s.skip(1);
        assert(forall|j: int| 0 <= j < t.len() ==> #[trigger] t[j] == s[j + 1]);
        lemma_remove_entry_absent(t, k);
        assert(remove_entry(s, k) =~= s);
    }
}

/// An ordered mapping from MIME identifier to handler list, with unique keys.
pub struct MimeMap {
    entries: Vec<(MimeId, HandlerList)>,
}

/// An ordered, deduplicated sequence of handler identifiers; position 0 is
/// the default handler, later positions are fallbacks.
pub struct HandlerList {
    items: Vec<Handler>,
}

impl View for HandlerList {
    type V = Seq<Seq<u8>>;

    closed spec fn view(&self) -> Seq<Seq<u8>> {
        hl_view(self.items@)
    }
}

impl HandlerList {
    pub open spec fn wf(&self) -> bool {
        hlist_wf(self@)
    }

    /// The one-element list holding `h`.
    pub fn singleton(h: Handler) -> (r: HandlerList)
        ensures
            r@ == seq![h@],
    {
        let items = vec![h];
        let r = HandlerList { items };
        proof {
            assert(r@ =~= seq![h@]);
        }
        r
    }

    pub fn len(&self) -> (r: usize)
        ensures
            r == self@.len(),
    {
        self.items.len()
    }

    pub fn item_at(&self, i: usize) -> (r: &Handler)
        requires
            i < self@.len(),
        ensures
            r@ == self@[i as int],
    {
        &self.items[i]
    }

    /// The default handler: the first of the list.
    pub fn first(&self) -> (r: &Handler)
        requires
            self@.len() > 0,
        ensures
            r@ == self@[0],
    {
        &self.items[0]
    }

    pub fn contains(&self, h: &Handler) -> (r: bool)
        ensures
            r == self@.contains(h@),
    {
        let n = self.items.len();
        let mut i: usize = 0;
        while i < n
            invariant
                n == self@.len(),
                n == self.items.len(),
                i <= n,
                forall|k: int| 0 <= k < i ==> self@[k] != h@,
            decreases n - i,
        {
            if self.items[i].same(h) {
                proof {
                    assert(self@[i as int] == h@);
                }
                return true;
            }
            i = i + 1;
        }
        false
    }

    /// Appends `h` unless an equal handler is already listed: first
    /// occurrence wins, duplicates never enter the list.
    pub fn push_dedup(&mut self, h: Handler)
        ensures
            final(self)@ == if old(self)@.contains(h@) {
                old(self)@
            } else {
                old(self)@.push(h@)
            },
    {
        if !self.contains(&h) {
            let ghost pre = self@;
            self.items.push(h);
            proof {
                assert(self@ =~= pre.push(h@));
            }
        }
    }

    /// Wraps an already deduplicated, valid handler vector.
    pub fn from_vec(items: Vec<Handler>) -> (r: HandlerList)
        requires
            hlist_wf(hl_view(items@)),
        ensures
            r@ == hl_view(items@),
            r.wf(),
    {
        HandlerList { items }
    }

    /// A fresh list holding the same handlers.
    pub fn duplicate(&self) -> (r: HandlerList)
        ensures
            r@ == self@,
    {
        let n = self.items.len();
        let mut items: Vec<Handler> = Vec::new();
        let mut i: usize = 0;
        while i < n
            invariant
                n == self.items.len(),
                i <= n,
                hl_view(items@) =~= self@.take(i as int),
            decreases n - i,
        {
            let h = self.items[i].duplicate();
            let ghost pre = hl_view(items@);
            items.push(h);
            proof {
                assert(hl_view(items@) =~= pre.push(self@[i as int]));
                assert(pre.push(self@[i as int]) =~= self@.take(i + 1));
            }
            i = i + 1;
        }
        let r = HandlerList { items };
        proof {
            assert(self@.take(n as int) =~= self@);
        }
        r
    }
}

impl View for MimeMap {
    type V = Seq<(Seq<u8>, Seq<Seq<u8>>)>;

    closed spec fn view(&self) -> Seq<(Seq<u8>, Seq<Seq<u8>>)> {
        entries_view(self.entries@)
    }
}

impl MimeMap {
    pub open spec fn wf(&self) -> bool {
        map_wf(self@)
    }

    pub fn new() -> (r: MimeMap)
        ensures
            r@ == Seq::<(Seq<u8>, Seq<Seq<u8>>)>::empty(),
            r.wf(),
    {
        let r = MimeMap { entries: Vec::new() };
        proof {
            assert(r@ =~= Seq::<(Seq<u8>, Seq<Seq<u8>>)>::empty());
        }
        r
    }

    pub fn len(&self) -> (r: usize)
        ensures
            r == self@.len(),
    {
        self.entries.len()
    }

    pub fn key_at(&self, i: usize) -> (r: &MimeId)
        requires
            i < self@.len(),
        ensures
            r@ == self@[i as int].0,
    {
        &self.entries[i].0
    }

    pub fn list_at(&self, i: usize) -> (r: &HandlerList)
        requires
            i < self@.len(),
        ensures
            r@ == self@[i as int].1,
    {
        &self.entries[i].1
    }

    /// The position of the key, under first-match semantics.
    fn index_of_key(&self, k: &MimeId) -> (r: Option<usize>)
        ensures
            match r {
                Some(i) => i < self@.len() && self@[i as int].0 == k@ && forall|j: int|
                    0 <= j < i ==> (#[trigger] self@[j]).0 != k@,
                None => forall|i: int| 0 <= i < self@.len() ==> (#[trigger] self@[i]).0 != k@,
            },
    {
        let n = self.entries.len();
        let mut i: usize = 0;
        while i < n
            invariant
                n == self.entries.len(),
                n == self@.len(),
                i <= n,
                forall|j: int| 0 <= j < i ==> (#[trigger] self@[j]).0 != k@,
            decreases n - i,
        {
            if self.entries[i].0.same(k) {
                return Some(i);
            }
            i = i + 1;
        }
        None
    }

    /// The first position whose key is not below `k`.
    fn lower_bound(&self, k: &MimeId) -> (p: usize)
        ensures
            p <= self@.len(),
            forall|i: int| 0 <= i < p ==> lex_lt((#[trigger] self@[i]).0, k@),
            p < self@.len() ==> !lex_lt(self@[p as int].0, k@),
    {
        let n = self.entries.len();
        let mut p: usize = 0;
        while p < n
            invariant
                n == self.entries.len(),
                n == self@.len(),
                p <= n,
                forall|i: int| 0 <= i < p ==> lex_lt((#[trigger] self@[i]).0, k@),
            decreases n - p,
        {
            if !self.entries[p].0.lt(k) {
                return p;
            }
            p = p + 1;
        }
        p
    }

    /// The handler list stored at `k`, if any.
    pub fn get(&self, k: &MimeId) -> (r: Option<&HandlerList>)
        ensures
            match r {
                Some(hl) => lookup_value(self@, k@) == Some(hl@) && contains_key(self@, k@),
                None => lookup_value(self@, k@) is None && !contains_key(self@, k@),
            },
    {
        match self.index_of_key(k) {
            Some(i) => {
                proof {
                    lemma_lookup_index_first(self@, k@, i as int);
                    lemma_lookup_some_contains(self@, k@);
                }
                Some(&self.entries[i].1)
            },
            None => {
                proof {
                    lemma_lookup_absent(self@, k@);
                    lemma_lookup_some_contains(self@, k@);
                }
                None
            },
        }
    }

    /// Writes `v` at `k`, replacing any previous list at that key.
    pub fn insert(&mut self, k: MimeId, v: HandlerList)
        requires
            old(self).wf(),
            k.wf(),
            hlist_wf(v@),
        ensures
            final(self).wf(),
            final(self)@ == insert_entry(old(self)@, k@, v@),
    {
        let ghost s = self@;
        let p = self.lower_bound(&k);
        proof {
            lemma_insert_entry_at(s, k@, v@, p as int);
        }
        if p < self.entries.len() && self.entries[p].0.same(&k) {
            let ghost kk = k@;
            let ghost vv = v@;
            self.entries.set(p, (k, v));
            proof {
                assert(self@ =~= s.update(p as int, (kk, vv)));
                assert(sorted_keys(self@)) by {
                    assert(forall|i: int|
                        0 <= i < self@.len() ==> (#[trigger] self@[i]).0 == s[i].0);
                }
            }
        } else {
            let ghost kk = k@;
            let ghost vv = v@;
            proof {
                if p < s.len() {
                    lemma_lex_trichotomy(s[p as int].0, kk);
                }
            }
            self.entries.insert(p, (k, v));
            proof {
                assert(self@ =~= s.take(p as int) + seq![(kk, vv)] + s.skip(p as int));
                let t = self@;
                assert forall|i: int, j: int| 0 <= i < j < t.len() implies lex_lt(
                    (#[trigger] t[i]).0,
                    (#[trigger] t[j]).0,
                ) by {
                    let pi = p as int;
                    if i < pi && j == pi {
                    } else if i == pi && j > pi {
                        assert(t[j] == s[j - 1]);
                        if j - 1 > pi {
                            lemma_lex_trans(kk, s[pi].0, s[j - 1].0);
                        }
                    } else if i < pi && j > pi {
                        assert(t[j] == s[j - 1]);
                        if j - 1 == pi {
                        } else {
                            assert(lex_lt(s[i].0, s[j - 1].0));
                        }
                    } else if i > pi && j > pi {
                        assert(t[i] == s[i - 1] && t[j] == s[j - 1]);
                    }
                }
            }
        }
    }

    /// Deletes the entry keyed `k`; reports whether a deletion occurred.
    pub fn remove_key(&mut self, k: &MimeId) -> (removed: bool)
        requires
            old(self).wf(),
        ensures
            final(self).wf(),
            final(self)@ == remove_entry(old(self)@, k@),
            removed == contains_key(old(self)@, k@),
    {
        let ghost s = self@;
        match self.index_of_key(k) {
            Some(i) => {
                proof {
                    lemma_remove_entry_first(s, k@, i as int);
                }
                self.entries.remove(i);
                proof {
                    assert(self@ =~= s.take(i as int) + s.skip(i as int + 1));
                    let t = self@;
                    assert forall|a: int, b: int| 0 <= a < b < t.len() implies lex_lt(
                        (#[trigger] t[a]).0,
                        (#[trigger] t[b]).0,
                    ) by {
                        let ii = i as int;
                        let a0 = if a < ii { a } else { a + 1 };
                        let b0 = if b < ii { b } else { b + 1 };
                        assert(t[a] == s[a0] && t[b] == s[b0]);
                    }
                    assert(contains_key(s, k@));
                }
                true
            },
            None => {
                proof {
                    lemma_remove_entry_absent(s, k@);
                    if contains_key(s, k@) {
                        let i = choose|i: int| 0 <= i < s.len() && (#[trigger] s[i]).0 == k@;
                    }
                }
                false
            },
        }
    }

    /// Builds the map from an already key-sorted, well-formed entry vector.
    pub fn from_sorted(entries: Vec<(MimeId, HandlerList)>) -> (r: MimeMap)
        requires
            map_wf(entries_view(entries@)),
        ensures
            r@ == entries_view(entries@),
            r.wf(),
    {
        MimeMap { entries }
    }

    /// Hands the entries out, releasing the map.
    pub fn take_entries(self) -> (r: Vec<(MimeId, HandlerList)>)
        ensures
            entries_view(r@) == self@,
    {
        self.entries
    }
}

/// `lookup_value` returns the value at the first matching index.
proof fn lemma_lookup_index_first(s: Seq<(Seq<u8>, Seq<Seq<u8>>)>, k: Seq<u8>, i: int)
    requires
        0 <= i < s.len(),
        s[i].0 == k,
        forall|j: int| 0 <= j < i ==> (#[trigger] s[j]).0 != k,
    ensures
        lookup_value(s, k) == Some(s[i].1),
    decreases s.len(),
{
    if i == 0 {
    } else {
        let t = s.skip(1);
        assert(forall|j: int| 0 <= j < t.len() ==> #[trigger] t[j] == s[j + 1]);
        lemma_lookup_index_first(t, k, i - 1);
    }
}

/// The persisted data model: three independent mappings from MIME identifier
/// to handler list, as read from and written to `mimeapps.list`.
pub struct MimeApps {
    pub added_associations: MimeMap,
    pub removed_associations: MimeMap,
    pub default_apps: MimeMap,
}

impl MimeApps {
    pub open spec fn wf(&self) -> bool {
        &&& self.added_associations.wf()
        &&& self.removed_associations.wf()
        &&& self.default_apps.wf()
    }

    pub fn new() -> (r: MimeApps)
        ensures
            r.wf(),
            r.added_associations@.len() == 0,
            r.removed_associations@.len() == 0,
            r.default_apps@.len() == 0,
    {
        MimeApps {
            added_associations: MimeMap::new(),
            removed_associations: MimeMap::new(),
            default_apps: MimeMap::new(),
        }
    }

    /// Appends `handler` as a fallback in the default list for `mime`,
    /// creating the list when absent; an already-listed handler is kept in
    /// its first position.
    pub fn add_handler(&mut self, mime: MimeId, handler: Handler)
        requires
            old(self).wf(),
            mime.wf(),
            handler.wf(),
        ensures
            final(self).wf(),
            final(self).default_apps@ == insert_entry(
                old(self).default_apps@,
                mime@,
                add_value(old(self).default_apps@, mime@, handler@),
            ),
            final(self).added_associations@ == old(self).added_associations@,
            final(self).removed_associations@ == old(self).removed_associations@,
    {
        let ghost dv = self.default_apps@;
        let ghost hv = handler@;
        let list = match self.default_apps.get(&mime) {
            Some(hl) => {
                proof {
                    lemma_lookup_value_wf(dv, mime@);
                }
                let ghost v0 = hl@;
                let mut d = hl.duplicate();
                d.push_dedup(handler);
                proof {
                    if !v0.contains(hv) {
                        assert(d@ == v0.push(hv));
                        assert forall|i: int, j: int| 0 <= i < j < d@.len() implies d@[i]
                            != d@[j] by {
                            if j == v0.len() {
                                assert(d@[i] == v0[i] && v0[i] != hv);
                            } else {
                                assert(d@[i] == v0[i] && d@[j] == v0[j]);
                            }
                        }
                        assert(forall|i: int|
                            0 <= i < d@.len() ==> handler_valid(#[trigger] d@[i])) by {
                            assert(forall|i: int|
                                0 <= i < v0.len() ==> #[trigger] d@[i] == v0[i]);
                            assert(d@[v0.len() as int] == hv);
                        }
                    }
                    assert(hlist_wf(d@));
                }
                d
            },
            None => {
                let l = HandlerList::singleton(handler);
                proof {
                    assert(l@[0] == hv);
                    assert(hlist_wf(l@));
                }
                l
            },
        };
        self.default_apps.insert(mime, list);
    }

    /// Replaces the default list for `mime` with the singleton `handler`.
    pub fn set_handler(&mut self, mime: MimeId, handler: Handler)
        requires
            old(self).wf(),
            mime.wf(),
            handler.wf(),
        ensures
            final(self).wf(),
            final(self).default_apps@ == insert_entry(old(self).default_apps@, mime@, seq![handler@]),
            final(self).added_associations@ == old(self).added_associations@,
            final(self).removed_associations@ == old(self).removed_associations@,
    {
        let list = HandlerList::singleton(handler);
        self.default_apps.insert(mime, list);
    }

    /// Deletes the default list for `mime`; reports whether anything was
    /// deleted, so the caller can avoid a no-op write to disk.
    pub fn remove_handler(&mut self, mime: &MimeId) -> (removed: bool)
        requires
            old(self).wf(),
        ensures
            final(self).wf(),
            final(self).default_apps@ == remove_entry(old(self).default_apps@, mime@),
            removed == contains_key(old(self).default_apps@, mime@),
            final(self).added_associations@ == old(self).added_associations@,
            final(self).removed_associations@ == old(self).removed_associations@,
    {
        self.default_apps.remove_key(mime)
    }

    /// The default handler for `mime`: the first of its default list.
    pub fn get_handler(&self, mime: &MimeId) -> (r: Result<Handler, Error>)
        requires
            self.wf(),
        ensures
            match r {
                Ok(h) => lookup_value(self.default_apps@, mime@) matches Some(v) && v.len() > 0
                    && h@ == v[0],
                Err(e) => !contains_key(self.default_apps@, mime@) && (e matches Error::NotFound(
                    b,
                ) && b@ == mime@),
            },
    {
        match self.default_apps.get(mime) {
            Some(hl) => {
                proof {
                    lemma_lookup_value_wf(self.default_apps@, mime@);
                }
                Ok(hl.first().duplicate())
            },
            None => Err(Error::NotFound(crate::order::clone_bytes(mime.as_bytes()))),
        }
    }
}

/// In a well-formed map every stored list is well-formed, hence nonempty.
pub proof fn lemma_lookup_value_wf(s: Seq<(Seq<u8>, Seq<Seq<u8>>)>, k: Seq<u8>)
    requires
        entries_wf(s),
        lookup_value(s, k) is Some,
    ensures
        hlist_wf(lookup_value(s, k)->Some_0),
    decreases s.len(),
{
    if s.len() > 0 && s[0].0 != k {
        let t = s.skip(1);
        assert(forall|j: int| 0 <= j < t.len() ==> #[trigger] t[j] == s[j + 1]);
        lemma_lookup_value_wf(t, k);
    }
}

} // verus!
