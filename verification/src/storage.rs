//! The storage engine: a key space mapping byte-string keys to values with
//! an optional absolute expiry deadline, glob-style key enumeration, and two
//! backing variants — a volatile one and a durable one persisted through the
//! snapshot codec.
//!
//! Time is threaded in as a plain count of milliseconds: `get` treats a value
//! whose deadline lies strictly in the past as absent, without removing it.

use vstd::prelude::*;
use crate::rdb::{
    parse_rdb_bytes, representable, snapshot_of, spec_parse_rdb, write_rdb_bytes,
    SnapshotFormatError,
};
use crate::resp::{copy_range, push_bytes, suffix};

verus! {

/// A stored value: the payload and an optional absolute expiry deadline in
/// milliseconds.
#[derive(Debug)]
pub struct Value {
    pub value: Vec<u8>,
    pub expiry: Option<u64>,
}

/// The mathematical shape of a [`Value`].
pub struct ValueModel {
    pub value: Seq<u8>,
    pub expiry: Option<u64>,
}

impl View for Value {
    type V = ValueModel;

    open spec fn view(&self) -> ValueModel {
        ValueModel { value: self.value@, expiry: self.expiry }
    }
}

impl Clone for Value {
    fn clone(&self) -> (r: Self)
        ensures
            r@ == self@,
    {
        let value = copy_range(self.value.as_slice(), 0, self.value.len());
        proof {
            assert(value@ =~= self.value@);
        }
        Value { value, expiry: self.expiry }
    }
}

/// Where the snapshot file lives: a directory and a file name.
#[derive(Debug)]
pub struct RdbConfig {
    pub dir: Vec<u8>,
    pub path: Vec<u8>,
}

/// The mathematical shape of an [`RdbConfig`].
pub struct RdbConfigModel {
    pub dir: Seq<u8>,
    pub path: Seq<u8>,
}

impl View for RdbConfig {
    type V = RdbConfigModel;

    open spec fn view(&self) -> RdbConfigModel {
        RdbConfigModel { dir: self.dir@, path: self.path@ }
    }
}

/// The ASCII slash that joins directory and file name.
pub const SLASH: u8 = 47;

impl RdbConfig {
    /// The full snapshot file path, `<dir>/<path>`.
    pub fn config_file(&self) -> (r: Vec<u8>)
        ensures
            r@ == self@.dir + seq![SLASH] + self@.path,
    {
        let mut r = copy_range(self.dir.as_slice(), 0, self.dir.len());
        proof {
            assert(r@ =~= self.dir@);
        }
        r.push(SLASH);
        push_bytes(&mut r, self.path.as_slice());
        proof {
            assert(r@ =~= self@.dir + seq![SLASH] + self@.path);
        }
        r
    }

    fn clone_parts(&self) -> (r: RdbConfig)
        ensures
            r@ == self@,
    {
        let dir = copy_range(self.dir.as_slice(), 0, self.dir.len());
        let path = copy_range(self.path.as_slice(), 0, self.path.len());
        proof {
            assert(dir@ =~= self.dir@);
            assert(path@ =~= self.path@);
        }
        RdbConfig { dir, path }
    }
}

/// The glob wildcard: `*` matches any run of bytes, every other byte only
/// itself.
pub const WILDCARD: u8 = 42;

/// Whether glob pattern `p` matches the whole of `s`.
pub open spec fn glob_match(p: Seq<u8>, s: Seq<u8>) -> bool
    decreases p.len() + s.len(),
{
    if p.len() == 0 {
        s.len() == 0
    } else if p[0] == WILDCARD {
        glob_match(p.drop_first(), s) || (s.len() > 0 && glob_match(p, s.drop_first()))
    } else {
        s.len() > 0 && p[0] == s[0] && glob_match(p.drop_first(), s.drop_first())
    }
}

/// Matches the pattern suffix starting at `i` against the text suffix
/// starting at `j`.
fn glob_step(p: &[u8], s: &[u8], i: usize, j: usize) -> (r: bool)
    requires
        i <= p@.len(),
        j <= s@.len(),
    ensures
        r == glob_match(suffix(p@, i as int), suffix(s@, j as int)),
    decreases p@.len() - i + s@.len() - j,
{
    proof {
        if i < p@.len() {
            assert(suffix(p@, i as int)[0] == p@[i as int]);
            assert(suffix(p@, i as int).drop_first() =~= suffix(p@, i + 1));
        }
        if j < s@.len() {
            assert(suffix(s@, j as int)[0] == s@[j as int]);
            assert(suffix(s@, j as int).drop_first() =~= suffix(s@, j + 1));
        }
    }
    if i == p.len() {
        j == s.len()
    } else if p[i] == WILDCARD {
        if glob_step(p, s, i + 1, j) {
            true
        } else if j < s.len() {
            glob_step(p, s, i, j + 1)
        } else {
            false
        }
    } else {
        if j < s.len() && p[i] == s[j] {
            glob_step(p, s, i + 1, j + 1)
        } else {
            false
        }
    }
}

/// Whether glob pattern `pattern` matches the whole of `text`.
pub fn glob_matches(pattern: &[u8], text: &[u8]) -> (r: bool)
    ensures
        r == glob_match(pattern@, text@),
{
    let r = glob_step(pattern, text, 0, 0);
    proof {
        assert(suffix(pattern@, 0) =~= pattern@);
        assert(suffix(text@, 0) =~= text@);
    }
    r
}

/// The contents of a sequence of byte vectors.
pub open spec fn views_of(s: Seq<Vec<u8>>) -> Seq<Seq<u8>> {
    s.map_values(|v: Vec<u8>| v@)
}

/// The subsequence of `keys`, in order, that glob pattern `p` matches.
pub open spec fn glob_filter(p: Seq<u8>, keys: Seq<Seq<u8>>) -> Seq<Seq<u8>>
    decreases keys.len(),
{
    if keys.len() == 0 {
        Seq::empty()
    } else {
        let rest = glob_filter(p, keys.drop_last());
        if glob_match(p, keys.last()) {
            rest.push(keys.last())
        } else {
            rest
        }
    }
}

/// Keeps the haystack entries that the glob pattern `key` matches, in order.
pub fn needle_in_haystack(key: &[u8], haystack: &Vec<Vec<u8>>) -> (r: Vec<Vec<u8>>)
    ensures
        views_of(r@) == glob_filter(key@, views_of(haystack@)),
{
    let mut r: Vec<Vec<u8>> = Vec::new();
    let mut i: usize = 0;
    while i < haystack.len()
        invariant
            i <= haystack@.len(),
            views_of(r@) == glob_filter(key@, views_of(haystack@).subrange(0, i as int)),
        decreases haystack@.len() - i,
    {
        let ghost before = views_of(r@);
        if glob_matches(key, haystack[i].as_slice()) {
            let item = copy_range(haystack[i].as_slice(), 0, haystack[i].len());
            proof {
                assert(item@ =~= haystack@[i as int]@);
            }
            r.push(item);
            proof {
                assert(views_of(r@) =~= before.push(haystack@[i as int]@));
            }
        }
        proof {
            let all = views_of(haystack@);
            assert(all.subrange(0, i + 1).drop_last() =~= all.subrange(0, i as int));
            assert(all.subrange(0, i + 1).last() == haystack@[i as int]@);
        }
        i = i + 1;
    }
    proof {
        assert(views_of(haystack@).subrange(0, haystack@.len() as int) =~= views_of(haystack@));
    }
    r
}

/// An element of the filtered sequence is exactly a matching element of the
/// input.
pub proof fn lemma_glob_filter_elems(p: Seq<u8>, keys: Seq<Seq<u8>>)
    ensures
        forall|x: Seq<u8>|
            #[trigger] glob_filter(p, keys).contains(x) <==> (keys.contains(x) && glob_match(
                p,
                x,
            )),
    decreases keys.len(),
{
    if keys.len() == 0 {
    } else {
        lemma_glob_filter_elems(p, keys.drop_last());
        let rest = glob_filter(p, keys.drop_last());
        assert forall|x: Seq<u8>| #[trigger] glob_filter(p, keys).contains(x) implies (
        keys.contains(x) && glob_match(p, x)) by {
            if glob_match(p, keys.last()) {
                if x == keys.last() {
                    assert(keys[keys.len() - 1] == x);
                } else {
                    assert(rest.contains(x));
                    let i = choose|i: int| 0 <= i < keys.drop_last().len() && keys.drop_last()[i]
                        == x;
                    assert(keys[i] == x);
                }
            } else {
                let i = choose|i: int| 0 <= i < keys.drop_last().len() && keys.drop_last()[i] == x;
                assert(keys[i] == x);
            }
        }
        assert forall|x: Seq<u8>| keys.contains(x) && glob_match(p, x) implies #[trigger]
        glob_filter(p, keys).contains(x) by {
            let i = choose|i: int| 0 <= i < keys.len() && keys[i] == x;
            if i < keys.len() - 1 {
                assert(keys.drop_last()[i] == x);
                assert(rest.contains(x));
                let j = choose|j: int| 0 <= j < rest.len() && rest[j] == x;
                if glob_match(p, keys.last()) {
                    assert(glob_filter(p, keys)[j] == x);
                } else {
                    assert(glob_filter(p, keys)[j] == x);
                }
            } else {
                assert(x == keys.last());
                let filtered = glob_filter(p, keys);
                assert(filtered[filtered.len() - 1] == x);
            }
        }
    }
}

/// Filtering keeps pairwise-distinct elements pairwise distinct.
pub proof fn lemma_glob_filter_distinct(p: Seq<u8>, keys: Seq<Seq<u8>>)
    requires
        forall|i: int, j: int| 0 <= i < j < keys.len() ==> keys[i] != keys[j],
    ensures
        forall|i: int, j: int|
            0 <= i < j < glob_filter(p, keys).len() ==> glob_filter(p, keys)[i] != glob_filter(
                p,
                keys,
            )[j],
    decreases keys.len(),
{
    if keys.len() == 0 {
    } else {
        assert(forall|i: int, j: int|
            0 <= i < j < keys.drop_last().len() ==> keys.drop_last()[i] != keys.drop_last()[j]);
        lemma_glob_filter_distinct(p, keys.drop_last());
        let rest = glob_filter(p, keys.drop_last());
        let whole = glob_filter(p, keys);
        if glob_match(p, keys.last()) {
            // The appended element is distinct from everything in `rest`.
            assert forall|i: int, j: int| 0 <= i < j < whole.len() implies whole[i] != whole[j] by {
                if j == whole.len() - 1 {
                    lemma_glob_filter_elems(p, keys.drop_last());
                    if rest[i] == keys.last() {
                        assert(rest.contains(keys.last()));
                        let m = choose|m: int|
                            0 <= m < keys.drop_last().len() && keys.drop_last()[m] == keys.last();
                        assert(keys[m] == keys[keys.len() - 1]);
                    }
                }
            }
        }
    }
}

/// Whether two byte strings hold the same bytes.
pub(crate) fn bytes_eq(a: &[u8], b: &[u8]) -> (r: bool)
    ensures
        r == (a@ == b@),
{
    if a.len() != b.len() {
        return false;
    }
    let mut i: usize = 0;
    while i < a.len()
        invariant
            i <= a@.len(),
            a@.len() == b@.len(),
            forall|m: int| 0 <= m < i ==> a@[m] == b@[m],
        decreases a@.len() - i,
    {
        if a[i] != b[i] {
            return false;
        }
        i = i + 1;
    }
    proof {
        assert(a@ =~= b@);
    }
    true
}

/// The models of the pairs of a key table.
pub open spec fn pair_views(s: Seq<(Vec<u8>, Value)>) -> Seq<(Seq<u8>, ValueModel)> {
    s.map_values(|p: (Vec<u8>, Value)| (p.0@, p.1@))
}

/// The keys of a pair sequence, in order.
pub open spec fn key_list(s: Seq<(Seq<u8>, ValueModel)>) -> Seq<Seq<u8>> {
    s.map_values(|p: (Seq<u8>, ValueModel)| p.0)
}

/// Whether no key occurs twice.
pub open spec fn distinct_keys(s: Seq<(Seq<u8>, ValueModel)>) -> bool {
    forall|i: int, j: int| 0 <= i < j < s.len() ==> s[i].0 != s[j].0
}

/// The key space that a pair sequence denotes; a later pair with the same
/// key wins.
pub open spec fn pairs_to_map(s: Seq<(Seq<u8>, ValueModel)>) -> Map<Seq<u8>, ValueModel>
    decreases s.len(),
{
    if s.len() == 0 {
        Map::empty()
    } else {
        pairs_to_map(s.drop_last()).insert(s.last().0, s.last().1)
    }
}

/// A key is in the denoted map exactly when some pair carries it.
pub proof fn lemma_ptm_contains(s: Seq<(Seq<u8>, ValueModel)>, k: Seq<u8>)
    ensures
        pairs_to_map(s).contains_key(k) <==> exists|i: int| 0 <= i < s.len() && s[i].0 == k,
    decreases s.len(),
{
    if s.len() > 0 {
        lemma_ptm_contains(s.drop_last(), k);
        if pairs_to_map(s).contains_key(k) {
            if k == s.last().0 {
                assert(s[s.len() - 1].0 == k);
            } else {
                let i = choose|i: int| 0 <= i < s.drop_last().len() && s.drop_last()[i].0 == k;
                assert(s[i].0 == k);
            }
        }
        if exists|i: int| 0 <= i < s.len() && s[i].0 == k {
            let i = choose|i: int| 0 <= i < s.len() && s[i].0 == k;
            if i < s.len() - 1 {
                assert(s.drop_last()[i].0 == k);
            }
        }
    }
}

/// With distinct keys, the denoted map sends each pair's key to its value.
pub proof fn lemma_ptm_index(s: Seq<(Seq<u8>, ValueModel)>, i: int)
    requires
        distinct_keys(s),
        0 <= i < s.len(),
    ensures
        pairs_to_map(s).contains_key(s[i].0),
        pairs_to_map(s)[s[i].0] == s[i].1,
    decreases s.len(),
{
    if i == s.len() - 1 {
    } else {
        assert(forall|a: int, b: int|
            0 <= a < b < s.drop_last().len() ==> s.drop_last()[a].0 != s.drop_last()[b].0);
        lemma_ptm_index(s.drop_last(), i);
        assert(s.drop_last()[i] == s[i]);
        assert(s[i].0 != s.last().0);
    }
}

/// Replacing the value of the pair that carries `k` denotes `insert`.
pub proof fn lemma_ptm_update(s: Seq<(Seq<u8>, ValueModel)>, i: int, v: ValueModel)
    requires
        distinct_keys(s),
        0 <= i < s.len(),
    ensures
        pairs_to_map(s.update(i, (s[i].0, v))) == pairs_to_map(s).insert(s[i].0, v),
    decreases s.len(),
{
    let k = s[i].0;
    let s2 = s.update(i, (k, v));
    if i == s.len() - 1 {
        assert(s2.drop_last() =~= s.drop_last());
        assert(s2.last() == (k, v));
        assert(pairs_to_map(s2) == pairs_to_map(s.drop_last()).insert(k, v));
        assert(pairs_to_map(s.drop_last()).insert(k, s.last().1).insert(k, v) =~= pairs_to_map(
            s.drop_last(),
        ).insert(k, v));
    } else {
        assert(forall|a: int, b: int|
            0 <= a < b < s.drop_last().len() ==> s.drop_last()[a].0 != s.drop_last()[b].0);
        lemma_ptm_update(s.drop_last(), i, v);
        assert(s2.drop_last() =~= s.drop_last().update(i, (k, v)));
        assert(s2.last() == s.last());
        assert(s.drop_last()[i] == s[i]);
        // The two inserted keys differ, so the inserts commute.
        assert(s.last().0 != k);
        assert(pairs_to_map(s.drop_last()).insert(k, v).insert(s.last().0, s.last().1)
            =~= pairs_to_map(s.drop_last()).insert(s.last().0, s.last().1).insert(k, v));
    }
}

/// Appending a fresh pair denotes `insert`.
pub proof fn lemma_ptm_push(s: Seq<(Seq<u8>, ValueModel)>, k: Seq<u8>, v: ValueModel)
    ensures
        pairs_to_map(s.push((k, v))) == pairs_to_map(s).insert(k, v),
{
    assert(s.push((k, v)).drop_last() =~= s);
    assert(s.push((k, v)).last() == (k, v));
}

/// Finds the position of `key` in the table, if any.
fn table_find(table: &Vec<(Vec<u8>, Value)>, key: &[u8]) -> (r: Option<usize>)
    ensures
        match r {
            Some(i) => i < table@.len() && pair_views(table@)[i as int].0 == key@,
            None => forall|i: int| 0 <= i < table@.len() ==> pair_views(table@)[i].0 != key@,
        },
{
    let mut i: usize = 0;
    while i < table.len()
        invariant
            i <= table@.len(),
            forall|m: int| 0 <= m < i ==> pair_views(table@)[m].0 != key@,
        decreases table@.len() - i,
    {
        if bytes_eq(table[i].0.as_slice(), key) {
            return Some(i);
        }
        i = i + 1;
    }
    None
}

/// Stores `value` under `key`, replacing any pair that already carries the
/// key and appending otherwise.
fn table_set(table: &mut Vec<(Vec<u8>, Value)>, key: Vec<u8>, value: Value)
    requires
        distinct_keys(pair_views(old(table)@)),
    ensures
        distinct_keys(pair_views(final(table)@)),
        pairs_to_map(pair_views(final(table)@)) == pairs_to_map(pair_views(old(table)@)).insert(
            key@,
            value@,
        ),
{
    let ghost k = key@;
    let ghost v = value@;
    let ghost before = pair_views(table@);
    match table_find(table, key.as_slice()) {
        Some(i) => {
            table.remove(i);
            table.insert(i, (key, value));
            proof {
                assert(table@ =~= old(table)@.update(i as int, old(table)@[i as int]).update(
                    i as int,
                    table@[i as int],
                ));
                assert(pair_views(table@) =~= before.update(i as int, (k, v)));
                assert(before[i as int].0 == k);
                lemma_ptm_update(before, i as int, v);
                assert(forall|a: int, b: int|
                    0 <= a < b < before.update(i as int, (k, v)).len() ==> before.update(
                        i as int,
                        (k, v),
                    )[a].0 != before.update(i as int, (k, v))[b].0);
            }
        }
        None => {
            table.push((key, value));
            proof {
                assert(pair_views(table@) =~= before.push((k, v)));
                lemma_ptm_push(before, k, v);
                assert forall|a: int, b: int| 0 <= a < b < pair_views(table@).len() implies
                pair_views(table@)[a].0 != pair_views(table@)[b].0 by {
                    if b == pair_views(table@).len() - 1 {
                        assert(before[a].0 != k);
                    }
                }
            }
        }
    }
}

/// Whether a value is still live at `now`: no deadline, or a deadline not
/// yet passed.
pub open spec fn live(v: ValueModel, now: u64) -> bool {
    match v.expiry {
        None => true,
        Some(e) => now <= e,
    }
}

/// What a read of key `k` at time `now` yields from key space `m`: the
/// stored value if present and live, absent otherwise.
pub open spec fn get_model(m: Map<Seq<u8>, ValueModel>, k: Seq<u8>, now: u64) -> Option<
    ValueModel,
> {
    if m.contains_key(k) && live(m[k], now) {
        Some(m[k])
    } else {
        None
    }
}

/// The model of an optional owned value.
pub open spec fn opt_value_view(r: Option<Value>) -> Option<ValueModel> {
    match r {
        Some(v) => Some(v@),
        None => None,
    }
}

/// Reads the live value stored under `key` at time `now`, if any.
fn table_get(table: &Vec<(Vec<u8>, Value)>, key: &[u8], now: u64) -> (r: Option<Value>)
    requires
        distinct_keys(pair_views(table@)),
    ensures
        opt_value_view(r) == get_model(pairs_to_map(pair_views(table@)), key@, now),
{
    let ghost views = pair_views(table@);
    let ghost m = pairs_to_map(views);
    match table_find(table, key) {
        Some(i) => {
            proof {
                lemma_ptm_index(views, i as int);
            }
            let stored = &table[i].1;
            match stored.expiry {
                Some(e) => {
                    if now > e {
                        None
                    } else {
                        Some(stored.clone())
                    }
                }
                None => Some(stored.clone()),
            }
        }
        None => {
            proof {
                lemma_ptm_contains(views, key@);
            }
            None
        }
    }
}

/// Lists the keys of the table, in order, that glob pattern `pattern`
/// matches.
fn table_keys(table: &Vec<(Vec<u8>, Value)>, pattern: &[u8]) -> (r: Vec<Vec<u8>>)
    requires
        distinct_keys(pair_views(table@)),
    ensures
        keys_result_for(pairs_to_map(pair_views(table@)), pattern@, views_of(r@)),
{
    let ghost views = pair_views(table@);
    let ghost m = pairs_to_map(views);
    let mut all: Vec<Vec<u8>> = Vec::new();
    let mut i: usize = 0;
    while i < table.len()
        invariant
            i <= table@.len(),
            views_of(all@) == key_list(pair_views(table@)).subrange(0, i as int),
        decreases table@.len() - i,
    {
        let ghost before = views_of(all@);
        let k = copy_range(table[i].0.as_slice(), 0, table[i].0.len());
        proof {
            assert(k@ =~= pair_views(table@)[i as int].0);
        }
        all.push(k);
        proof {
            let kl = key_list(pair_views(table@));
            assert(views_of(all@) =~= before.push(kl[i as int]));
            assert(kl.subrange(0, i + 1) =~= kl.subrange(0, i as int).push(kl[i as int]));
        }
        i = i + 1;
    }
    proof {
        assert(key_list(views).subrange(0, table@.len() as int) =~= key_list(views));
    }
    let r = needle_in_haystack(pattern, &all);
    proof {
        let kl = key_list(views);
        let ks = views_of(r@);
        assert(forall|a: int, b: int| 0 <= a < b < kl.len() ==> kl[a] != kl[b]);
        lemma_glob_filter_elems(pattern@, kl);
        lemma_glob_filter_distinct(pattern@, kl);
        assert forall|i2: int| 0 <= i2 < ks.len() implies m.contains_key(#[trigger] ks[i2])
            && glob_match(pattern@, ks[i2]) by {
            assert(ks.contains(ks[i2]));
            assert(kl.contains(ks[i2]));
            let w = choose|w: int| 0 <= w < kl.len() && kl[w] == ks[i2];
            assert(views[w].0 == ks[i2]);
            lemma_ptm_contains(views, ks[i2]);
        }
        assert forall|k2: Seq<u8>| m.contains_key(k2) && glob_match(pattern@, k2) implies
        #[trigger] ks.contains(k2) by {
            lemma_ptm_contains(views, k2);
            let w = choose|w: int| 0 <= w < views.len() && views[w].0 == k2;
            assert(kl[w] == k2);
            assert(kl.contains(k2));
        }
    }
    r
}

/// What a key enumeration must return: every listed key is stored and
/// matches the pattern, every stored matching key is listed, and no key is
/// listed twice.  The order is left open.
pub open spec fn keys_result_for(
    m: Map<Seq<u8>, ValueModel>,
    p: Seq<u8>,
    ks: Seq<Seq<u8>>,
) -> bool {
    &&& forall|i: int|
        0 <= i < ks.len() ==> m.contains_key(#[trigger] ks[i]) && glob_match(p, ks[i])
    &&& forall|k: Seq<u8>| m.contains_key(k) && glob_match(p, k) ==> #[trigger] ks.contains(k)
    &&& forall|i: int, j: int| 0 <= i < j < ks.len() ==> ks[i] != ks[j]
}

/// A key never stored reads as absent.
pub proof fn lemma_get_absent(m: Map<Seq<u8>, ValueModel>, k: Seq<u8>, now: u64)
    requires
        !m.contains_key(k),
    ensures
        get_model(m, k, now) is None,
{
}

/// Storing a value with no deadline and reading the key back yields that
/// value, at any time.
pub proof fn lemma_set_then_get(m: Map<Seq<u8>, ValueModel>, k: Seq<u8>, v: Seq<u8>, now: u64)
    ensures
        get_model(m.insert(k, ValueModel { value: v, expiry: None }), k, now) == Some(
            ValueModel { value: v, expiry: None },
        ),
{
}

/// Storing a value whose deadline already passed and reading the key back
/// immediately yields absent.
pub proof fn lemma_set_expired(
    m: Map<Seq<u8>, ValueModel>,
    k: Seq<u8>,
    v: Seq<u8>,
    e: u64,
    now: u64,
)
    requires
        e < now,
    ensures
        get_model(m.insert(k, ValueModel { value: v, expiry: Some(e) }), k, now) is None,
{
}

/// Storing a value whose deadline has not yet passed and reading the key
/// back yields that value.
pub proof fn lemma_set_unexpired(
    m: Map<Seq<u8>, ValueModel>,
    k: Seq<u8>,
    v: Seq<u8>,
    e: u64,
    now: u64,
)
    requires
        now <= e,
    ensures
        get_model(m.insert(k, ValueModel { value: v, expiry: Some(e) }), k, now) == Some(
            ValueModel { value: v, expiry: Some(e) },
        ),
{
}

/// Whether every key and value of the key space fits the snapshot format's
/// one-byte length prefix.
pub open spec fn representable_map(m: Map<Seq<u8>, ValueModel>) -> bool {
    forall|k: Seq<u8>|
        m.contains_key(k) ==> #[trigger] k.len() <= 255 && m[k].value.len() <= 255
}

/// A table with distinct keys fits the snapshot format exactly when its key
/// space does.
proof fn lemma_representable_iff(views: Seq<(Seq<u8>, ValueModel)>)
    requires
        distinct_keys(views),
    ensures
        representable(views) <==> representable_map(pairs_to_map(views)),
{
    let m = pairs_to_map(views);
    if representable(views) {
        assert forall|k: Seq<u8>| m.contains_key(k) implies #[trigger] k.len() <= 255
            && m[k].value.len() <= 255 by {
            lemma_ptm_contains(views, k);
            let i = choose|i: int| 0 <= i < views.len() && views[i].0 == k;
            lemma_ptm_index(views, i);
        }
    }
    if representable_map(m) {
        assert forall|i: int| 0 <= i < views.len() implies (#[trigger] views[i]).0.len() <= 255
            && views[i].1.value.len() <= 255 by {
            lemma_ptm_index(views, i);
        }
    }
}

/// The storage interface: a key space with expiry-aware reads, glob key
/// enumeration, and snapshot persistence expressed over plain bytes.
pub trait Storage: Sized {
    /// The key space this store holds.
    spec fn key_space(&self) -> Map<Seq<u8>, ValueModel>;

    /// The configured snapshot location; empty for a volatile store.
    spec fn config_model(&self) -> RdbConfigModel;

    /// Whether this store persists snapshots.
    spec fn durable(&self) -> bool;

    /// Stores `value` under `key`, replacing any previous value.
    fn set(&mut self, key: Vec<u8>, value: Value)
        ensures
            final(self).key_space() == old(self).key_space().insert(key@, value@),
            final(self).config_model() == old(self).config_model(),
            final(self).durable() == old(self).durable(),
    ;

    /// Reads the value under `key`, treating one whose deadline lies before
    /// `now` as absent.
    fn get(&self, key: &[u8], now: u64) -> (r: Option<Value>)
        ensures
            opt_value_view(r) == get_model(self.key_space(), key@, now),
    ;

    /// Lists the stored keys that glob pattern `pattern` matches, in an
    /// unspecified order, each exactly once.
    fn keys(&self, pattern: &[u8]) -> (r: Option<Vec<Vec<u8>>>)
        ensures
            r matches Some(ks) && keys_result_for(self.key_space(), pattern@, views_of(ks@)),
    ;

    /// Serializes the key space for persistence: nothing for a volatile
    /// store, the snapshot bytes for a durable one, an error when a key or
    /// value cannot be represented.
    fn save(&self) -> (r: Result<Option<Vec<u8>>, SnapshotFormatError>)
        ensures
            !self.durable() ==> (r matches Ok(b) && b is None),
            self.durable() && representable_map(self.key_space()) ==> (r matches Ok(b)
                && b matches Some(bytes) && snapshot_of(bytes@, self.key_space())),
            self.durable() && !representable_map(self.key_space()) ==> r is Err,
    ;

    /// Replaces the key space with the one read from snapshot bytes; a
    /// volatile store ignores the bytes.  A reported error still installs
    /// the records decoded before the corruption.
    fn load(&mut self, data: &[u8]) -> (r: Result<(), SnapshotFormatError>)
        ensures
            final(self).config_model() == old(self).config_model(),
            final(self).durable() == old(self).durable(),
            !old(self).durable() ==> final(self).key_space() == old(self).key_space() && r is Ok,
            old(self).durable() ==> final(self).key_space() == pairs_to_map(
                spec_parse_rdb(data@).0,
            ) && ((r is Ok) <==> !spec_parse_rdb(data@).1),
    ;

    /// The snapshot location this store was configured with.
    fn config(&self) -> (r: RdbConfig)
        ensures
            r@ == self.config_model(),
    ;
}

/// The volatile backing store: a bare in-memory key space; `save` and
/// `load` do nothing.
pub struct InMemoryStorage {
    map: Vec<(Vec<u8>, Value)>,
}

impl InMemoryStorage {
    #[verifier::type_invariant]
    spec fn inv(self) -> bool {
        distinct_keys(pair_views(self.map@))
    }

    /// An empty volatile store.
    pub fn new() -> (r: Self)
        ensures
            r.key_space() == Map::<Seq<u8>, ValueModel>::empty(),
            r.config_model() == (RdbConfigModel { dir: Seq::<u8>::empty(), path: Seq::<u8>::empty() }),
            !r.durable(),
    {
        let r = InMemoryStorage { map: Vec::new() };
        proof {
            assert(pair_views(r.map@) =~= Seq::<(Seq<u8>, ValueModel)>::empty());
        }
        r
    }
}

impl Storage for InMemoryStorage {
    closed spec fn key_space(&self) -> Map<Seq<u8>, ValueModel> {
        pairs_to_map(pair_views(self.map@))
    }

    closed spec fn config_model(&self) -> RdbConfigModel {
        RdbConfigModel { dir: Seq::empty(), path: Seq::empty() }
    }

    closed spec fn durable(&self) -> bool {
        false
    }

    fn set(&mut self, key: Vec<u8>, value: Value) {
        proof {
            use_type_invariant(&*self);
        }
        let mut map: Vec<(Vec<u8>, Value)> = Vec::new();
        core::mem::swap(&mut map, &mut self.map);
        table_set(&mut map, key, value);
        self.map = map;
    }

    fn get(&self, key: &[u8], now: u64) -> (r: Option<Value>) {
        proof {
            use_type_invariant(&*self);
        }
        table_get(&self.map, key, now)
    }

    fn keys(&self, pattern: &[u8]) -> (r: Option<Vec<Vec<u8>>>) {
        proof {
            use_type_invariant(&*self);
        }
        Some(table_keys(&self.map, pattern))
    }

    fn save(&self) -> (r: Result<Option<Vec<u8>>, SnapshotFormatError>) {
        Ok(None)
    }

    fn load(&mut self, data: &[u8]) -> (r: Result<(), SnapshotFormatError>) {
        Ok(())
    }

    fn config(&self) -> (r: RdbConfig) {
        let r = RdbConfig { dir: Vec::new(), path: Vec::new() };
        proof {
            assert(r.dir@ =~= Seq::<u8>::empty());
            assert(r.path@ =~= Seq::<u8>::empty());
        }
        r
    }
}

/// The durable backing store: an in-memory key space together with the
/// snapshot location it persists to.
pub struct RdbStorage {
    config: RdbConfig,
    map: Vec<(Vec<u8>, Value)>,
}

impl RdbStorage {
    #[verifier::type_invariant]
    spec fn inv(self) -> bool {
        distinct_keys(pair_views(self.map@))
    }

    /// An empty durable store that persists to `<dir>/<path>`.
    pub fn new(dir: Vec<u8>, path: Vec<u8>) -> (r: Self)
        ensures
            r.key_space() == Map::<Seq<u8>, ValueModel>::empty(),
            r.config_model() == (RdbConfigModel { dir: dir@, path: path@ }),
            r.durable(),
    {
        let r = RdbStorage { config: RdbConfig { dir, path }, map: Vec::new() };
        proof {
            assert(pair_views(r.map@) =~= Seq::<(Seq<u8>, ValueModel)>::empty());
        }
        r
    }
}

impl Storage for RdbStorage {
    closed spec fn key_space(&self) -> Map<Seq<u8>, ValueModel> {
        pairs_to_map(pair_views(self.map@))
    }

    closed spec fn config_model(&self) -> RdbConfigModel {
        self.config@
    }

    closed spec fn durable(&self) -> bool {
        true
    }

    fn set(&mut self, key: Vec<u8>, value: Value) {
        proof {
            use_type_invariant(&*self);
        }
        let mut map: Vec<(Vec<u8>, Value)> = Vec::new();
        core::mem::swap(&mut map, &mut self.map);
        table_set(&mut map, key, value);
        self.map = map;
    }

    fn get(&self, key: &[u8], now: u64) -> (r: Option<Value>) {
        proof {
            use_type_invariant(&*self);
        }
        table_get(&self.map, key, now)
    }

    fn keys(&self, pattern: &[u8]) -> (r: Option<Vec<Vec<u8>>>) {
        proof {
            use_type_invariant(&*self);
        }
        Some(table_keys(&self.map, pattern))
    }

    fn save(&self) -> (r: Result<Option<Vec<u8>>, SnapshotFormatError>) {
        proof {
            use_type_invariant(&*self);
            lemma_representable_iff(pair_views(self.map@));
        }
        match write_rdb_bytes(&self.map) {
            Ok(bytes) => {
                proof {
                    crate::rdb::lemma_snapshot_round_trip(pair_views(self.map@));
                }
                Ok(Some(bytes))
            }
            Err(e) => Err(e),
        }
    }

    fn load(&mut self, data: &[u8]) -> (r: Result<(), SnapshotFormatError>) {
        proof {
            use_type_invariant(&*self);
        }
        let (mut entries, err) = parse_rdb_bytes(data);
        let ghost parsed = pair_views(entries@);
        let mut fresh: Vec<(Vec<u8>, Value)> = Vec::new();
        proof {
            assert(pair_views(fresh@) =~= Seq::<(Seq<u8>, ValueModel)>::empty());
            assert(pair_views(entries@) =~= parsed.subrange(0, parsed.len() as int));
        }
        while entries.len() > 0
            invariant
                distinct_keys(pair_views(fresh@)),
                entries@.len() <= parsed.len(),
                pair_views(entries@) == parsed.subrange(
                    parsed.len() - entries@.len(),
                    parsed.len() as int,
                ),
                pairs_to_map(pair_views(fresh@)) == pairs_to_map(
                    parsed.subrange(0, parsed.len() - entries@.len()),
                ),
            decreases entries@.len(),
        {
            let ghost j = parsed.len() - entries@.len();
            let ghost pre = entries@;
            let (k, v) = entries.remove(0);
            proof {
                assert(pair_views(pre)[0] == parsed.subrange(j, parsed.len() as int)[0]);
                assert((k@, v@) == parsed[j]);
                assert(entries@ =~= pre.remove(0));
                assert forall|m: int| 0 <= m < entries@.len() implies pair_views(entries@)[m]
                    == parsed.subrange(j + 1, parsed.len() as int)[m] by {
                    assert(entries@[m] == pre[m + 1]);
                    assert(pair_views(pre)[m + 1] == parsed.subrange(j, parsed.len() as int)[m
                        + 1]);
                }
                assert(pair_views(entries@) =~= parsed.subrange(j + 1, parsed.len() as int));
            }
            table_set(&mut fresh, k, v);
            proof {
                assert(parsed.subrange(0, j + 1).drop_last() =~= parsed.subrange(0, j));
                assert(parsed.subrange(0, j + 1).last() == parsed[j]);
            }
        }
        proof {
            assert(parsed.subrange(0, parsed.len() as int) =~= parsed);
        }
        self.map = fresh;
        match err {
            Some(e) => Err(e),
            None => Ok(()),
        }
    }

    fn config(&self) -> (r: RdbConfig) {
        self.config.clone_parts()
    }
}

/// The sole-wildcard pattern enumerates the whole key space: whatever a
/// key enumeration as [`keys_result_for`] describes returns for the pattern
/// `*`, it lists every stored key and nothing else.
pub proof fn lemma_keys_star_returns_all(m: Map<Seq<u8>, ValueModel>, ks: Seq<Seq<u8>>)
    requires
        keys_result_for(m, seq![WILDCARD], ks),
    ensures
        forall|k: Seq<u8>| m.contains_key(k) ==> #[trigger] ks.contains(k),
        forall|i: int| 0 <= i < ks.len() ==> m.contains_key(#[trigger] ks[i]),
{
    assert forall|k: Seq<u8>| m.contains_key(k) implies #[trigger] ks.contains(k) by {
        lemma_star_matches_any(k);
    }
}

/// The pattern `*` matches every byte string.
pub proof fn lemma_star_matches_any(s: Seq<u8>)
    ensures
        glob_match(seq![WILDCARD], s),
    decreases s.len(),
{
    let p = seq![WILDCARD];
    if s.len() == 0 {
        assert(p.drop_first() =~= Seq::<u8>::empty());
        assert(glob_match(p.drop_first(), s));
    } else {
        lemma_star_matches_any(s.drop_first());
    }
}

/// A pattern without the wildcard matches exactly itself.
pub proof fn lemma_literal_matches_only_itself(p: Seq<u8>, s: Seq<u8>)
    requires
        forall|i: int| 0 <= i < p.len() ==> p[i] != WILDCARD,
    ensures
        glob_match(p, s) <==> p == s,
    decreases p.len(),
{
    if p.len() == 0 {
        if s.len() == 0 {
            assert(p =~= s);
        }
    } else {
        assert(forall|i: int|
            0 <= i < p.drop_first().len() ==> p.drop_first()[i] == p[i + 1]);
        if s.len() > 0 {
            lemma_literal_matches_only_itself(p.drop_first(), s.drop_first());
            if p[0] == s[0] && p.drop_first() == s.drop_first() {
                assert forall|m: int| 0 <= m < p.len() implies p[m] == s[m] by {
                    if m > 0 {
                        assert(p.drop_first()[m - 1] == s.drop_first()[m - 1]);
                    }
                }
                assert(p =~= s);
            }
            if p == s {
                assert(p.drop_first() =~= s.drop_first());
            }
        }
    }
}

/// A key enumeration for a pattern without the wildcard returns exactly
/// that key when it is stored, and nothing when it is not.
pub proof fn lemma_keys_literal_exact(
    m: Map<Seq<u8>, ValueModel>,
    p: Seq<u8>,
    ks: Seq<Seq<u8>>,
)
    requires
        keys_result_for(m, p, ks),
        forall|i: int| 0 <= i < p.len() ==> p[i] != WILDCARD,
    ensures
        m.contains_key(p) ==> ks == seq![p],
        !m.contains_key(p) ==> ks == Seq::<Seq<u8>>::empty(),
{
    assert forall|i: int| 0 <= i < ks.len() implies ks[i] == p by {
        lemma_literal_matches_only_itself(p, ks[i]);
    }
    if m.contains_key(p) {
        lemma_literal_matches_only_itself(p, p);
        assert(ks.contains(p));
        let w = choose|w: int| 0 <= w < ks.len() && ks[w] == p;
        if ks.len() > 1 {
            assert(ks[0] == p && ks[1] == p);
        }
        assert(ks =~= seq![p]);
    } else {
        if ks.len() > 0 {
            assert(m.contains_key(ks[0]));
        }
        assert(ks =~= Seq::<Seq<u8>>::empty());
    }
}

} // verus!
