//! Indexes over the contexts of an artifact's symbols.

use vstd::prelude::*;
use vstd::string::*;

use super::context::{ContextFingerprint, ContextModel};
use crate::postings::{Postings, TextPostings};
use crate::text::hex_text;

use super::context;
use crate::{sets, syntax, text};

verus! {

/// The bands of both similarity hashes, sixteen bits each.
pub const BANDS: u64 = 8;

/// The first `count` rows whose context has a property.
pub open spec fn rows_where(
    contexts: Seq<ContextModel>,
    property: spec_fn(ContextModel) -> bool,
    count: int,
) -> Seq<int>
    decreases count,
{
    if count <= 0 {
        Seq::empty()
    } else if property(contexts[count - 1]) {
        rows_where(contexts, property, count - 1).push(count - 1)
    } else {
        rows_where(contexts, property, count - 1)
    }
}

/// All rows whose context has a property.
pub open spec fn rows_with(
    contexts: Seq<ContextModel>,
    property: spec_fn(ContextModel) -> bool,
) -> Seq<int> {
    rows_where(contexts, property, contexts.len() as int)
}

/// Being of a class and having exactly a shape.
pub open spec fn has_shape(class: u8, digest: Seq<u8>) -> spec_fn(ContextModel) -> bool {
    |c: ContextModel| c.class == class && c.digest == digest
}

/// Coming from an origin.
pub open spec fn has_origin(origin: Seq<u8>) -> spec_fn(ContextModel) -> bool {
    |c: ContextModel| c.origin == Some(origin)
}

/// Having a feature.
pub open spec fn has_feature(feature: u64) -> spec_fn(ContextModel) -> bool {
    |c: ContextModel| c.features.contains(feature)
}

/// Sixteen bits of one of the two similarity hashes.
pub open spec fn band_value(c: ContextModel, band: u64) -> u64 {
    if band < 4 {
        (c.shape_hash >> ((band * 16) as u64)) & 0xffff
    } else {
        (c.context_hash >> (((band - 4) * 16) as u64)) & 0xffff
    }
}

/// Being of a class and agreeing in a band.
pub open spec fn has_band(class: u8, band: u64, value: u64) -> spec_fn(ContextModel) -> bool {
    |c: ContextModel| c.class == class && band_value(c, band) == value
}

/// The largest power of two in a size, by its exponent.
pub open spec fn size_bucket(size: int) -> int
    decreases size,
{
    if size < 2 {
        0
    } else {
        1 + size_bucket(size / 2)
    }
}

/// Being of a class, in a kind of scope, and of a size.
pub open spec fn has_bucket(class: u8, scope_kind: u8, bucket: int) -> spec_fn(
    ContextModel,
) -> bool {
    |c: ContextModel|
        c.class == class && c.scope_kind == scope_kind && size_bucket(c.size) == bucket
}

/// A class, a band and its value in one number.
pub open spec fn band_key(class: u8, band: u64, value: u64) -> int {
    class * 0x100_0000 + band * 0x1_0000 + value
}

/// A class, a kind of scope and a size in one number.
pub open spec fn bucket_key(class: u8, scope_kind: u8, bucket: int) -> int {
    class * 0x1_0000 + scope_kind * 0x100 + bucket
}

/// A class and a shape in one text.
pub open spec fn shape_key(class: u8, digest: Seq<u8>) -> Seq<char> {
    text::hex_of(seq![class] + digest)
}

/// Having a band behind a number.
spec fn has_band_key(key: u64) -> spec_fn(ContextModel) -> bool {
    |c: ContextModel| some_band_is(c, key, BANDS)
}

/// Whether one of the first bands of a context is behind a number.
spec fn some_band_is(c: ContextModel, key: u64, count: u64) -> bool {
    exists|band: u64| band < count && #[trigger] band_key(c.class, band, band_value(c, band)) == key
}

/// Having a size behind a number.
spec fn has_bucket_key(key: u64) -> spec_fn(ContextModel) -> bool {
    |c: ContextModel| bucket_key(c.class, c.scope_kind, size_bucket(c.size)) == key
}

/// Having a shape behind a text.
spec fn has_shape_key(key: Seq<char>) -> spec_fn(ContextModel) -> bool {
    |c: ContextModel| shape_key(c.class, c.digest) == key
}

/// Having an origin behind a text.
spec fn has_origin_key(key: Seq<char>) -> spec_fn(ContextModel) -> bool {
    |c: ContextModel| c.origin matches Some(origin) && text::hex_of(origin) == key
}

proof fn lemma_same_rows(
    contexts: Seq<ContextModel>,
    p: spec_fn(ContextModel) -> bool,
    q: spec_fn(ContextModel) -> bool,
    count: int,
)
    requires
        count <= contexts.len(),
        forall|k: int| 0 <= k < contexts.len() ==> p(#[trigger] contexts[k]) == q(contexts[k]),
    ensures
        rows_where(contexts, p, count) == rows_where(contexts, q, count),
    decreases count,
{
    if count > 0 {
        lemma_same_rows(contexts, p, q, count - 1);
        assert(p(contexts[count - 1]) == q(contexts[count - 1]));
    }
}

/// Rows with a property are rows, have it, ascend, and are all of them.
pub proof fn lemma_rows_where(
    contexts: Seq<ContextModel>,
    property: spec_fn(ContextModel) -> bool,
    count: int,
)
    requires
        0 <= count <= contexts.len(),
    ensures
        rows_where(contexts, property, count).len() <= count,
        forall|k: int|
            0 <= k < rows_where(contexts, property, count).len() ==> 0 <= #[trigger] rows_where(
                contexts,
                property,
                count,
            )[k] < count && property(contexts[rows_where(contexts, property, count)[k]]),
        forall|t: int|
            0 <= t < count && property(#[trigger] contexts[t]) ==> rows_where(
                contexts,
                property,
                count,
            ).contains(t),
    decreases count,
{
    if count > 0 {
        lemma_rows_where(contexts, property, count - 1);
        let shorter = rows_where(contexts, property, count - 1);
        let longer = rows_where(contexts, property, count);
        assert forall|t: int| 0 <= t < count && property(
            #[trigger] contexts[t],
        ) implies longer.contains(t) by {
            if t < count - 1 {
                let k = choose|k: int| 0 <= k < shorter.len() && shorter[k] == t;
                assert(longer[k] == t);
            } else {
                assert(longer[longer.len() - 1] == t);
            }
        }
    }
}

/// The indexes over the contexts of one artifact.
pub struct ContextIndex {
    contexts: Vec<ContextFingerprint>,
    exact: TextPostings,
    origins: TextPostings,
    rare: Postings,
    bands: Postings,
    coarse: Postings,
}

/// The largest power of two in a size, by its exponent.
pub fn bucket_of(size: u32) -> (bucket: u64)
    ensures
        bucket == size_bucket(size as int),
        bucket < 32,
{
    let mut rest: u32 = size;
    let mut bucket: u64 = 0;
    proof {
        lemma_bucket_bound(size as int);
    }
    while rest >= 2
        invariant
            size_bucket(size as int) == bucket + size_bucket(rest as int),
            size_bucket(size as int) < 32,
        decreases rest,
    {
        proof {
            lemma_bucket_bound(rest as int / 2);
        }
        rest = rest / 2;
        bucket += 1;
    }
    bucket
}

spec fn power(exponent: int) -> int
    decreases exponent,
{
    if exponent <= 0 {
        1
    } else {
        2 * power(exponent - 1)
    }
}

fn value_of_band(c: &ContextFingerprint, band: u64) -> (value: u64)
    requires
        band < BANDS,
    ensures
        value == band_value(c@, band),
        value < 0x1_0000,
{
    let value: u64 = if band < 4 {
        (c.shape_hash >> (band * 16)) & 0xffff
    } else {
        (c.context_hash >> ((band - 4) * 16)) & 0xffff
    };
    proof {
        let h = c.shape_hash;
        let g = c.context_hash;
        let s = (band * 16) as u64;
        let t = ((band - 4) * 16) as u64;
        assert((h >> s) & 0xffff < 0x1_0000) by (bit_vector);
        assert((g >> t) & 0xffff < 0x1_0000) by (bit_vector);
    }
    value
}

fn key_of_band(c: &ContextFingerprint, band: u64) -> (key: u64)
    requires
        band < BANDS,
    ensures
        key == band_key(c@.class, band, band_value(c@, band)),
{
    c.class as u64 * 0x100_0000 + band * 0x1_0000 + value_of_band(c, band)
}

fn key_of_shape(c: &ContextFingerprint) -> (key: String)
    ensures
        key@ == shape_key(c@.class, c@.digest),
{
    let mut bytes: Vec<u8> = Vec::new();
    bytes.push(c.class);
    crate::bytes::push_all(&mut bytes, c.digest.as_slice());
    assert(bytes@ =~= seq![c.class] + c.digest@);
    hex_text(bytes.as_slice())
}

proof fn lemma_band_values(c: ContextModel, band: u64)
    ensures
        band_value(c, band) < 0x1_0000,
{
    let h = c.shape_hash;
    let g = c.context_hash;
    let s = (band * 16) as u64;
    let t = ((band - 4) * 16) as u64;
    assert((h >> s) & 0xffff < 0x1_0000) by (bit_vector);
    assert((g >> t) & 0xffff < 0x1_0000) by (bit_vector);
}

proof fn lemma_band_keys(c: ContextModel, class: u8, band: u64, value: u64, key: u64)
    requires
        band < BANDS,
        value < 0x1_0000,
        key == band_key(class, band, value),
    ensures
        some_band_is(c, key, BANDS) == (c.class == class && band_value(c, band) == value),
{
    if some_band_is(c, key, BANDS) {
        let other = choose|other: u64|
            other < BANDS && #[trigger] band_key(c.class, other, band_value(c, other)) == key;
        lemma_band_values(c, other);
    }
    if c.class == class && band_value(c, band) == value {
        assert(band_key(c.class, band, band_value(c, band)) == key);
    }
}

impl ContextIndex {
    /// What is indexed.
    pub closed spec fn models(&self) -> Seq<ContextModel> {
        context::context_views(self.contexts@)
    }

    spec fn is_indexed(&self, count: int) -> bool {
        &&& self.exact.is_wf()
        &&& self.origins.is_wf()
        &&& self.rare.is_wf()
        &&& self.bands.is_wf()
        &&& self.coarse.is_wf()
        &&& forall|key: Seq<char>| #[trigger]
            self.exact.rows(key) == rows_where(self.models(), has_shape_key(key), count)
        &&& forall|key: Seq<char>| #[trigger]
            self.origins.rows(key) == rows_where(self.models(), has_origin_key(key), count)
        &&& forall|key: u64| #[trigger]
            self.rare.rows(key) == rows_where(self.models(), has_feature(key), count)
        &&& forall|key: u64| #[trigger]
            self.bands.rows(key) == rows_where(self.models(), has_band_key(key), count)
        &&& forall|key: u64| #[trigger]
            self.coarse.rows(key) == rows_where(self.models(), has_bucket_key(key), count)
    }

    /// Whether every context is indexed.
    pub closed spec fn is_wf(&self) -> bool {
        self.is_indexed(self.contexts@.len() as int)
    }

    /// Indexes contexts.
    pub(crate) fn build(contexts: Vec<ContextFingerprint>) -> (index: Self)
        requires
            forall|k: int|
                0 <= k < contexts@.len() ==> sets::is_ascending(
                    (#[trigger] contexts@[k]).features@,
                ),
        ensures
            index.is_wf(),
            index.models() == context::context_views(contexts@),
    {
        let length: usize = contexts.len();
        let ghost models = context::context_views(contexts@);
        let mut exact = TextPostings::new();
        let mut origins = TextPostings::new();
        let mut rare = Postings::new();
        let mut bands = Postings::new();
        let mut coarse = Postings::new();
        let mut row: usize = 0;
        while row < length
            invariant
                row <= length,
                length == contexts@.len(),
                models == context::context_views(contexts@),
                forall|k: int|
                    0 <= k < contexts@.len() ==> sets::is_ascending(
                        (#[trigger] contexts@[k]).features@,
                    ),
                exact.is_wf(),
                origins.is_wf(),
                rare.is_wf(),
                bands.is_wf(),
                coarse.is_wf(),
                forall|key: Seq<char>| #[trigger]
                    exact.rows(key) == rows_where(models, has_shape_key(key), row as int),
                forall|key: Seq<char>| #[trigger]
                    origins.rows(key) == rows_where(models, has_origin_key(key), row as int),
                forall|key: u64| #[trigger]
                    rare.rows(key) == rows_where(models, has_feature(key), row as int),
                forall|key: u64| #[trigger]
                    bands.rows(key) == rows_where(models, has_band_key(key), row as int),
                forall|key: u64| #[trigger]
                    coarse.rows(key) == rows_where(models, has_bucket_key(key), row as int),
            decreases length - row,
        {
            let c = &contexts[row];
            assert(models[row as int] == c@);
            exact.push(key_of_shape(c), row);
            if let Some(origin) = c.origin {
                origins.push(hex_text(origin.as_slice()), row);
            }
            index_features(&mut rare, c, row, Ghost(models));
            index_bands(&mut bands, c, row, Ghost(models));
            let key: u64 = c.class as u64 * 0x1_0000 + c.scope_kind as u64 * 0x100 + bucket_of(
                c.size,
            );
            coarse.push(key, row);
            row += 1;
        }
        let index = ContextIndex { contexts, exact, origins, rare, bands, coarse };
        index
    }

    /// The contexts.
    pub fn contexts(&self) -> (contexts: &Vec<ContextFingerprint>)
        ensures
            context::context_views(contexts@) == self.models(),
    {
        &self.contexts
    }

    /// The rows that have exactly the shape of a context.
    pub(crate) fn exact_rows(&self, c: &ContextFingerprint) -> (rows: Option<&Vec<usize>>)
        requires
            self.is_wf(),
        ensures
            is_listing(rows, rows_with(self.models(), has_shape(c@.class, c@.digest))),
    {
        let key = key_of_shape(c);
        proof {
            let models = self.models();
            let p = has_shape_key(key@);
            let q = has_shape(c@.class, c@.digest);
            assert forall|k: int| 0 <= k < models.len() implies p(#[trigger] models[k])
                == q(models[k]) by {
                let m = models[k];
                text::lemma_hex_is_injective(seq![m.class] + m.digest, seq![c@.class] + c@.digest);
                if shape_key(m.class, m.digest) == key@ {
                    let x = seq![m.class] + m.digest;
                    let y = seq![c@.class] + c@.digest;
                    assert(x == y);
                    assert(x[0] == m.class && y[0] == c@.class);
                    assert(m.digest =~= x.drop_first());
                    assert(c@.digest =~= y.drop_first());
                }
            }
            lemma_same_rows(models, p, q, models.len() as int);
        }
        self.exact.get(key.as_str())
    }

    /// The rows that come from an origin.
    pub(crate) fn origin_rows(&self, origin: &[u8; 32]) -> (rows: Option<&Vec<usize>>)
        requires
            self.is_wf(),
        ensures
            is_listing(rows, rows_with(self.models(), has_origin(origin@))),
    {
        let key = hex_text(origin.as_slice());
        proof {
            let models = self.models();
            let p = has_origin_key(key@);
            let q = has_origin(origin@);
            assert forall|k: int| 0 <= k < models.len() implies p(#[trigger] models[k])
                == q(models[k]) by {
                if let Some(own) = models[k].origin {
                    text::lemma_hex_is_injective(own, origin@);
                }
            }
            lemma_same_rows(models, p, q, models.len() as int);
        }
        self.origins.get(key.as_str())
    }

    /// The rows that have a feature.
    pub(crate) fn feature_rows(&self, feature: u64) -> (rows: Option<&Vec<usize>>)
        requires
            self.is_wf(),
        ensures
            is_listing(rows, rows_with(self.models(), has_feature(feature))),
    {
        self.rare.get(feature)
    }

    /// The rows that agree with a context in a band.
    pub(crate) fn band_rows(&self, c: &ContextFingerprint, band: u64) -> (rows: Option<&Vec<usize>>)
        requires
            self.is_wf(),
            band < BANDS,
        ensures
            is_listing(
                rows,
                rows_with(self.models(), has_band(c@.class, band, band_value(c@, band))),
            ),
    {
        let key = key_of_band(c, band);
        proof {
            let models = self.models();
            let p = has_band_key(key);
            let q = has_band(c@.class, band, band_value(c@, band));
            lemma_band_values(c@, band);
            assert forall|k: int| 0 <= k < models.len() implies p(#[trigger] models[k])
                == q(models[k]) by {
                lemma_band_keys(models[k], c@.class, band, band_value(c@, band), key);
            }
            lemma_same_rows(models, p, q, models.len() as int);
        }
        self.bands.get(key)
    }

    /// The rows of the class and scope kind of a context in a size bucket.
    pub(crate) fn bucket_rows(&self, c: &ContextFingerprint, bucket: u64) -> (rows: Option<&Vec<usize>>)
        requires
            self.is_wf(),
            bucket < 0x100,
            forall|k: int|
                0 <= k < self.models().len() ==> 0 <= (#[trigger] self.models()[k]).size
                    <= u32::MAX,
        ensures
            is_listing(
                rows,
                rows_with(
                    self.models(),
                    has_bucket(c@.class, c@.scope_kind, bucket as int),
                ),
            ),
    {
        let key: u64 = c.class as u64 * 0x1_0000 + c.scope_kind as u64 * 0x100 + bucket;
        proof {
            let models = self.models();
            let p = has_bucket_key(key);
            let q = has_bucket(c@.class, c@.scope_kind, bucket as int);
            assert forall|k: int| 0 <= k < models.len() implies p(#[trigger] models[k])
                == q(models[k]) by {
                lemma_bucket_bound(models[k].size);
            }
            lemma_same_rows(models, p, q, models.len() as int);
        }
        self.coarse.get(key)
    }
}

proof fn lemma_bucket_bound(size: int)
    requires
        size <= u32::MAX,
    ensures
        0 <= size_bucket(size) < 32,
{
    assert(power(32) == 0x1_0000_0000) by {
        reveal_with_fuel(power, 33);
    }
    lemma_bucket_power(size, 32);
}

proof fn lemma_bucket_power(size: int, exponent: int)
    requires
        0 < exponent,
        size < power(exponent),
    ensures
        0 <= size_bucket(size) < exponent,
    decreases exponent,
{
    if size >= 2 {
        reveal_with_fuel(power, 2);
        if exponent == 1 {
            assert(power(1) == 2);
        } else {
            lemma_bucket_power(size / 2, exponent - 1);
        }
    }
}

/// Whether a list that may be missing holds rows.
pub open spec fn is_listing(rows: Option<&Vec<usize>>, expected: Seq<int>) -> bool {
    match rows {
        Some(rows) => syntax::index_views(rows@) == expected,
        None => expected.len() == 0,
    }
}

fn index_features(
    rare: &mut Postings,
    c: &ContextFingerprint,
    row: usize,
    models: Ghost<Seq<ContextModel>>,
)
    requires
        old(rare).is_wf(),
        row < models@.len(),
        models@[row as int] == c@,
        sets::is_ascending(c.features@),
        forall|key: u64| #[trigger]
            old(rare).rows(key) == rows_where(models@, has_feature(key), row as int),
    ensures
        final(rare).is_wf(),
        forall|key: u64| #[trigger]
            final(rare).rows(key) == rows_where(models@, has_feature(key), row + 1),
{
    let mut k: usize = 0;
    let ghost features = c.features@;
    while k < c.features.len()
        invariant
            k <= c.features@.len(),
            rare.is_wf(),
            features == c.features@,
            sets::is_ascending(features),
            forall|key: u64| #[trigger]
                rare.rows(key) == if features.take(k as int).contains(key) {
                    rows_where(models@, has_feature(key), row as int).push(row as int)
                } else {
                    rows_where(models@, has_feature(key), row as int)
                },
        decreases c.features@.len() - k,
    {
        let feature = c.features[k];
        let ghost before = *rare;
        rare.push(feature, row);
        proof {
            let shorter = features.take(k as int);
            let longer = features.take(k + 1);
            assert(!shorter.contains(feature)) by {
                if shorter.contains(feature) {
                    let j = choose|j: int| 0 <= j < shorter.len() && shorter[j] == feature;
                    assert(features[j] < features[k as int]);
                }
            }
            assert forall|key: u64| #[trigger] rare.rows(key) == if longer.contains(key) {
                rows_where(models@, has_feature(key), row as int).push(row as int)
            } else {
                rows_where(models@, has_feature(key), row as int)
            } by {
                assert(before.rows(key) == if shorter.contains(key) {
                    rows_where(models@, has_feature(key), row as int).push(row as int)
                } else {
                    rows_where(models@, has_feature(key), row as int)
                });
                if key == feature {
                    assert(longer[k as int] == key);
                }
                if shorter.contains(key) {
                    let j = choose|j: int| 0 <= j < shorter.len() && shorter[j] == key;
                    assert(longer[j] == key);
                }
                if longer.contains(key) && key != feature {
                    let j = choose|j: int| 0 <= j < longer.len() && longer[j] == key;
                    assert(j < k);
                    assert(shorter[j] == key);
                }
            }
        }
        k += 1;
    }
    assert(features.take(k as int) =~= features);
}

fn index_bands(
    bands: &mut Postings,
    c: &ContextFingerprint,
    row: usize,
    models: Ghost<Seq<ContextModel>>,
)
    requires
        old(bands).is_wf(),
        row < models@.len(),
        models@[row as int] == c@,
        forall|key: u64| #[trigger]
            old(bands).rows(key) == rows_where(models@, has_band_key(key), row as int),
    ensures
        final(bands).is_wf(),
        forall|key: u64| #[trigger]
            final(bands).rows(key) == rows_where(models@, has_band_key(key), row + 1),
{
    let mut band: u64 = 0;
    while band < BANDS
        invariant
            band <= BANDS,
            bands.is_wf(),
            forall|key: u64| #[trigger]
                bands.rows(key) == if some_band_is(c@, key, band) {
                    rows_where(models@, has_band_key(key), row as int).push(row as int)
                } else {
                    rows_where(models@, has_band_key(key), row as int)
                },
        decreases BANDS - band,
    {
        let own = key_of_band(c, band);
        let ghost before = *bands;
        bands.push(own, row);
        proof {
            assert forall|key: u64| #[trigger] bands.rows(key) == if some_band_is(
                c@,
                key,
                (band + 1) as u64,
            ) {
                rows_where(models@, has_band_key(key), row as int).push(row as int)
            } else {
                rows_where(models@, has_band_key(key), row as int)
            } by {
                assert(before.rows(key) == if some_band_is(c@, key, band) {
                    rows_where(models@, has_band_key(key), row as int).push(row as int)
                } else {
                    rows_where(models@, has_band_key(key), row as int)
                });
                if some_band_is(c@, key, band) {
                    let b = choose|b: u64|
                        b < band && #[trigger] band_key(c@.class, b, band_value(c@, b)) == key;
                    assert(b < band + 1);
                    lemma_band_values(c@, b);
                    lemma_band_values(c@, band);
                    assert(key != own);
                }
                if key == own {
                    assert(band_key(c@.class, band, band_value(c@, band)) == key);
                }
                if some_band_is(c@, key, (band + 1) as u64) && key != own {
                    let b = choose|b: u64|
                        b < band + 1 && #[trigger] band_key(c@.class, b, band_value(c@, b)) == key;
                    assert(b < band);
                }
            }
        }
        band += 1;
    }
}

} // verus!
