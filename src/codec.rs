//! Rows, upsert errors and the content-addressed keys derived from them.
use sha2::Digest;
use vstd::prelude::*;

verus! {

/// One typed value of a row.
#[derive(Clone, Debug, PartialEq, Eq, Hash)]
pub enum Datum {
    Null,
    Bool(bool),
    Int64(i64),
    Bytes(Vec<u8>),
}

/// The mathematical value of a [`Datum`].
pub enum DatumView {
    Null,
    Bool(bool),
    Int64(i64),
    Bytes(Seq<u8>),
}

impl View for Datum {
    type V = DatumView;

    open spec fn view(&self) -> DatumView {
        match self {
            Datum::Null => DatumView::Null,
            Datum::Bool(b) => DatumView::Bool(*b),
            Datum::Int64(i) => DatumView::Int64(*i),
            Datum::Bytes(b) => DatumView::Bytes(b@),
        }
    }
}

/// An ordered tuple of datums.
#[derive(Clone, Debug, PartialEq, Eq, Hash)]
pub struct Row {
    pub datums: Vec<Datum>,
}

impl View for Row {
    type V = Seq<DatumView>;

    open spec fn view(&self) -> Seq<DatumView> {
        self.datums@.map_values(|d: Datum| d@)
    }
}

/// A data-level error that flows through the upsert machinery like a value.
#[derive(Clone, Debug, PartialEq, Eq, Hash)]
pub enum UpsertError {
    /// The raw key bytes could not be decoded.
    KeyDecode { raw: Vec<u8> },
    /// The key columns were null.
    NullKey,
    /// The value failed validation; `for_key` holds its projected key columns.
    Value { for_key: Row },
}

/// The mathematical value of an [`UpsertError`].
pub enum ErrorView {
    KeyDecode(Seq<u8>),
    NullKey,
    Value(Seq<DatumView>),
}

impl View for UpsertError {
    type V = ErrorView;

    open spec fn view(&self) -> ErrorView {
        match self {
            UpsertError::KeyDecode { raw } => ErrorView::KeyDecode(raw@),
            UpsertError::NullKey => ErrorView::NullKey,
            UpsertError::Value { for_key } => ErrorView::Value(for_key@),
        }
    }
}

/// The payload held for a key: a row, or an error that stands in its place.
pub type UpsertValue = Result<Row, UpsertError>;

/// The mathematical value of an [`UpsertValue`].
pub type ValueView = Result<Seq<DatumView>, ErrorView>;

pub open spec fn value_view(v: UpsertValue) -> ValueView {
    match v {
        Ok(row) => Ok(row@),
        Err(e) => Err(e@),
    }
}

pub open spec fn ref_value_view(v: Result<&Row, &UpsertError>) -> ValueView {
    match v {
        Ok(row) => Ok(row@),
        Err(e) => Err(e@),
    }
}

/// What a key is hashed from: the ordered key datums, or a single datum
/// that tells an undecodable or null key apart.
pub type KeyDatums = Result<Seq<DatumView>, DatumView>;

pub open spec fn key_datums(v: ValueView) -> KeyDatums {
    match v {
        Ok(row) => Ok(row),
        Err(ErrorView::Value(for_key)) => Ok(for_key),
        Err(ErrorView::KeyDecode(raw)) => Err(DatumView::Bytes(raw)),
        Err(ErrorView::NullKey) => Err(DatumView::Null),
    }
}

/// Eight little-endian bytes of `v`.
pub open spec fn u64_le(v: u64) -> Seq<u8> {
    seq![
        v as u8,
        (v >> 8u64) as u8,
        (v >> 16u64) as u8,
        (v >> 24u64) as u8,
        (v >> 32u64) as u8,
        (v >> 40u64) as u8,
        (v >> 48u64) as u8,
        (v >> 56u64) as u8,
    ]
}

/// The canonical encoding of one datum: a tag byte, then its payload
/// (byte strings carry their length first).
pub open spec fn datum_bytes(d: DatumView) -> Seq<u8> {
    match d {
        DatumView::Null => seq![0u8],
        DatumView::Bool(b) => seq![1u8, if b { 1u8 } else { 0u8 }],
        DatumView::Int64(i) => seq![2u8] + u64_le(i as u64),
        DatumView::Bytes(b) => seq![3u8] + u64_le(b.len() as u64) + b,
    }
}

/// The encodings of `ds`, one after the other.
pub open spec fn datums_bytes(ds: Seq<DatumView>) -> Seq<u8>
    decreases ds.len(),
{
    if ds.len() == 0 {
        Seq::empty()
    } else {
        datums_bytes(ds.drop_last()) + datum_bytes(ds.last())
    }
}

/// The canonical byte string that a key is hashed from.
pub open spec fn key_encoding(k: KeyDatums) -> Seq<u8> {
    match k {
        Ok(ds) => seq![0u8] + u64_le(ds.len() as u64) + datums_bytes(ds),
        Err(d) => seq![1u8] + datum_bytes(d),
    }
}

/// The SHA-256 digest of `data`.
pub uninterp spec fn sha256_of(data: Seq<u8>) -> Seq<u8>;

/// The key of a value, as computed from its key datums.
pub open spec fn key_of(v: ValueView) -> Seq<u8> {
    sha256_of(key_encoding(key_datums(v)))
}

/// The datums among the first `n` of `row` whose position is one of `indices`,
/// in position order.
pub open spec fn project_upto(row: Seq<DatumView>, indices: Seq<usize>, n: int) -> Seq<DatumView>
    decreases n,
{
    if n <= 0 {
        Seq::empty()
    } else if indices.contains((n - 1) as usize) {
        project_upto(row, indices, n - 1).push(row[n - 1])
    } else {
        project_upto(row, indices, n - 1)
    }
}

/// The key columns of `row`: the datums whose position is one of `indices`,
/// in position order.
pub open spec fn project(row: Seq<DatumView>, indices: Seq<usize>) -> Seq<DatumView> {
    project_upto(row, indices, row.len() as int)
}

/// A full value with its row cut down to the key columns at `indices`.
pub open spec fn project_value(v: ValueView, indices: Seq<usize>) -> ValueView {
    match v {
        Ok(row) => Ok(project(row, indices)),
        Err(e) => Err(e),
    }
}

/// A fixed-width identifier of a key row: the SHA-256 digest of its
/// canonical encoding.
#[derive(Clone, Copy, Debug, Eq, Hash)]
pub struct UpsertKey([u8; 32]);

impl View for UpsertKey {
    type V = Seq<u8>;

    closed spec fn view(&self) -> Seq<u8> {
        self.0@
    }
}

impl PartialEq for UpsertKey {
    fn eq(&self, other: &UpsertKey) -> (r: bool) {
        let mut i: usize = 0;
        while i < 32
            invariant
                0 <= i <= 32,
                forall|j: int| 0 <= j < i ==> self.0@[j] == other.0@[j],
            decreases 32 - i,
        {
            if self.0[i] != other.0[i] {
                return false;
            }
            i = i + 1;
        }
        assert(self.0@ =~= other.0@);
        true
    }
}

impl UpsertKey {
    /// The digest bytes of this key.
    pub(crate) fn digest(&self) -> (r: [u8; 32])
        ensures
            r@ == self@,
    {
        self.0
    }

    /// The key whose digest bytes are `d`.
    pub(crate) fn from_digest(d: [u8; 32]) -> (r: UpsertKey)
        ensures
            r@ == d@,
    {
        UpsertKey(d)
    }
}

impl AsRef<[u8]> for UpsertKey {
    fn as_ref(&self) -> (r: &[u8])
        ensures
            r@ == self@,
    {
        self.0.as_slice()
    }
}

impl vstd::std_specs::cmp::PartialEqSpecImpl for UpsertKey {
    open spec fn obeys_eq_spec() -> bool {
        true
    }

    open spec fn eq_spec(&self, other: &UpsertKey) -> bool {
        self@ == other@
    }
}

/// Relies on sha2's `Sha256::digest`: the 32-byte digest of the input,
/// which depends on the input bytes alone.
#[verifier::external_body]
fn sha256(data: &Vec<u8>) -> (r: [u8; 32])
    ensures
        r@ == sha256_of(data@),
{
    sha2::Sha256::digest(data.as_slice()).into()
}

fn push_u64_le(out: &mut Vec<u8>, v: u64)
    ensures
        final(out)@ == old(out)@ + u64_le(v),
{
    out.push(v as u8);
    out.push((v >> 8u64) as u8);
    out.push((v >> 16u64) as u8);
    out.push((v >> 24u64) as u8);
    out.push((v >> 32u64) as u8);
    out.push((v >> 40u64) as u8);
    out.push((v >> 48u64) as u8);
    out.push((v >> 56u64) as u8);
    assert(final(out)@ =~= old(out)@ + u64_le(v));
}

fn push_datum(out: &mut Vec<u8>, d: &Datum)
    ensures
        final(out)@ == old(out)@ + datum_bytes(d@),
{
    match d {
        Datum::Null => {
            out.push(0u8);
        },
        Datum::Bool(b) => {
            out.push(1u8);
            out.push(if *b { 1u8 } else { 0u8 });
        },
        Datum::Int64(i) => {
            out.push(2u8);
            push_u64_le(out, *i as u64);
        },
        Datum::Bytes(b) => {
            out.push(3u8);
            push_u64_le(out, b.len() as u64);
            let ghost start = out@;
            let mut j: usize = 0;
            while j < b.len()
                invariant
                    0 <= j <= b.len(),
                    out@ == start + b@.subrange(0, j as int),
                decreases b.len() - j,
            {
                out.push(b[j]);
                j = j + 1;
                assert(out@ =~= start + b@.subrange(0, j as int));
            }
            assert(b@.subrange(0, b@.len() as int) =~= b@);
        },
    }
    assert(final(out)@ =~= old(out)@ + datum_bytes(d@));
}

fn digest_key(enc: &Vec<u8>) -> (r: UpsertKey)
    ensures
        r@ == sha256_of(enc@),
{
    UpsertKey(sha256(enc))
}

pub open spec fn datums_view(datums: Seq<Datum>) -> Seq<DatumView> {
    datums.map_values(|d: Datum| d@)
}

fn push_datums_key(out: &mut Vec<u8>, datums: &Vec<Datum>)
    ensures
        final(out)@ == old(out)@ + seq![0u8] + u64_le(datums@.len() as u64) + datums_bytes(datums_view(datums@)),
{
    let ghost dv = datums_view(datums@);
    out.push(0u8);
    push_u64_le(out, datums.len() as u64);
    let ghost start = out@;
    let mut j: usize = 0;
    while j < datums.len()
        invariant
            0 <= j <= datums.len(),
            dv == datums_view(datums@),
            out@ == start + datums_bytes(dv.subrange(0, j as int)),
        decreases datums.len() - j,
    {
        push_datum(out, &datums[j]);
        proof {
            let s = dv.subrange(0, j + 1);
            assert(s.drop_last() =~= dv.subrange(0, j as int));
            assert(s.last() == datums@[j as int]@);
        }
        j = j + 1;
        assert(out@ =~= start + datums_bytes(dv.subrange(0, j as int)));
    }
    assert(dv.subrange(0, dv.len() as int) =~= dv);
}

fn push_row_key(out: &mut Vec<u8>, row: &Row)
    ensures
        final(out)@ == old(out)@ + seq![0u8] + u64_le(row@.len() as u64) + datums_bytes(row@),
{
    push_datums_key(out, &row.datums);
}

fn push_error_key(out: &mut Vec<u8>, e: &UpsertError)
    ensures
        final(out)@ == old(out)@ + key_encoding(key_datums(Err(e@))),
{
    match e {
        UpsertError::Value { for_key } => {
            push_row_key(out, for_key);
        },
        UpsertError::KeyDecode { raw } => {
            out.push(1u8);
            let d = Datum::Bytes(copy_bytes(raw));
            push_datum(out, &d);
        },
        UpsertError::NullKey => {
            out.push(1u8);
            push_datum(out, &Datum::Null);
        },
    }
    assert(final(out)@ =~= old(out)@ + key_encoding(key_datums(Err(e@))));
}

/// A fresh copy of a byte string.
pub fn copy_bytes(b: &Vec<u8>) -> (r: Vec<u8>)
    ensures
        r@ == b@,
{
    let mut r: Vec<u8> = Vec::new();
    let mut j: usize = 0;
    while j < b.len()
        invariant
            0 <= j <= b.len(),
            r@ == b@.subrange(0, j as int),
        decreases b.len() - j,
    {
        r.push(b[j]);
        j = j + 1;
        assert(r@ =~= b@.subrange(0, j as int));
    }
    assert(r@ =~= b@);
    r
}

/// The canonical byte string that the key of a key row (or of an error
/// that stands in for one) is hashed from.
pub fn encode_key(key: Result<&Row, &UpsertError>) -> (r: Vec<u8>)
    ensures
        r@ == key_encoding(key_datums(ref_value_view(key))),
{
    let mut enc: Vec<u8> = Vec::new();
    match key {
        Ok(row) => push_row_key(&mut enc, row),
        Err(e) => push_error_key(&mut enc, e),
    }
    assert(enc@ =~= key_encoding(key_datums(ref_value_view(key))));
    enc
}

/// The canonical byte string that the key of a full value is hashed from:
/// that of its key columns, the datums whose position is one of `key_indices`.
pub fn encode_value_key(value: Result<&Row, &UpsertError>, key_indices: &[usize]) -> (r: Vec<u8>)
    ensures
        r@ == key_encoding(key_datums(project_value(ref_value_view(value), key_indices@))),
{
    match value {
        Ok(row) => {
            let key_row = project_row(row, key_indices);
            encode_key(Ok(&key_row))
        },
        Err(e) => encode_key(Err(e)),
    }
}

impl UpsertKey {
    /// The key of a key row, or of an error that stands in for one.
    pub fn from_key(key: Result<&Row, &UpsertError>) -> (r: UpsertKey)
        ensures
            r@ == key_of(ref_value_view(key)),
    {
        digest_key(&encode_key(key))
    }

    /// The key of a sequence of key datums, or of an error that stands in
    /// for one: the datums are hashed as [`UpsertKey::from_key`] hashes the
    /// row that holds them.
    pub fn from_iter(key: Result<&Vec<Datum>, &UpsertError>) -> (r: UpsertKey)
        ensures
            r@ == key_of(match key {
                Ok(datums) => Ok(datums_view(datums@)),
                Err(e) => Err(e@),
            }),
    {
        let mut enc: Vec<u8> = Vec::new();
        match key {
            Ok(datums) => push_datums_key(&mut enc, datums),
            Err(e) => push_error_key(&mut enc, e),
        }
        proof {
            let v: ValueView = match key {
                Ok(datums) => Ok(datums_view(datums@)),
                Err(e) => Err(e@),
            };
            assert(enc@ =~= key_encoding(key_datums(v)));
        }
        digest_key(&enc)
    }

    /// The key of a full value: the datums whose position is one of
    /// `key_indices` are taken as the key row, and hashed as
    /// [`UpsertKey::from_key`] hashes a key row.
    pub fn from_value(value: Result<&Row, &UpsertError>, key_indices: &[usize]) -> (r: UpsertKey)
        ensures
            r@ == key_of(project_value(ref_value_view(value), key_indices@)),
    {
        digest_key(&encode_value_key(value, key_indices))
    }
}

fn contains_index(indices: &[usize], p: usize) -> (r: bool)
    ensures
        r == indices@.contains(p),
{
    let mut i: usize = 0;
    while i < indices.len()
        invariant
            0 <= i <= indices@.len(),
            forall|j: int| 0 <= j < i ==> indices@[j] != p,
        decreases indices.len() - i,
    {
        if indices[i] == p {
            assert(indices@[i as int] == p);
            return true;
        }
        i = i + 1;
    }
    false
}

/// The key columns of `row` at `indices`, as a row of their own.
pub fn project_row(row: &Row, indices: &[usize]) -> (r: Row)
    ensures
        r@ == project(row@, indices@),
{
    let mut datums: Vec<Datum> = Vec::new();
    let mut p: usize = 0;
    while p < row.datums.len()
        invariant
            0 <= p <= row.datums@.len(),
            datums@.map_values(|d: Datum| d@) == project_upto(row@, indices@, p as int),
        decreases row.datums.len() - p,
    {
        if contains_index(indices, p) {
            let d = row.datums[p].copy();
            proof {
                assert(datums@.push(d).map_values(|d: Datum| d@) =~= datums@.map_values(|d: Datum| d@).push(d@));
            }
            datums.push(d);
        }
        p = p + 1;
    }
    Row { datums }
}

pub open spec fn option_view(v: Option<UpsertValue>) -> Option<ValueView> {
    match v {
        Some(x) => Some(value_view(x)),
        None => None,
    }
}

impl Datum {
    /// A copy of this datum.
    pub fn copy(&self) -> (r: Datum)
        ensures
            r@ == self@,
    {
        match self {
            Datum::Null => Datum::Null,
            Datum::Bool(b) => Datum::Bool(*b),
            Datum::Int64(i) => Datum::Int64(*i),
            Datum::Bytes(b) => Datum::Bytes(copy_bytes(b)),
        }
    }

    /// Whether two datums are the same value.
    pub fn same(&self, other: &Datum) -> (r: bool)
        ensures
            r == (self@ == other@),
    {
        match (self, other) {
            (Datum::Null, Datum::Null) => true,
            (Datum::Bool(a), Datum::Bool(b)) => *a == *b,
            (Datum::Int64(a), Datum::Int64(b)) => *a == *b,
            (Datum::Bytes(a), Datum::Bytes(b)) => bytes_equal(a, b),
            _ => false,
        }
    }
}

/// Whether two byte strings are equal.
pub fn bytes_equal(a: &Vec<u8>, b: &Vec<u8>) -> (r: bool)
    ensures
        r == (a@ == b@),
{
    if a.len() != b.len() {
        return false;
    }
    let mut j: usize = 0;
    while j < a.len()
        invariant
            0 <= j <= a.len(),
            a.len() == b.len(),
            forall|k: int| 0 <= k < j ==> a@[k] == b@[k],
        decreases a.len() - j,
    {
        if a[j] != b[j] {
            return false;
        }
        j = j + 1;
    }
    assert(a@ =~= b@);
    true
}

impl Row {
    /// A copy of this row.
    pub fn copy(&self) -> (r: Row)
        ensures
            r@ == self@,
    {
        let mut datums: Vec<Datum> = Vec::new();
        let mut j: usize = 0;
        while j < self.datums.len()
            invariant
                0 <= j <= self.datums.len(),
                datums@.len() == j,
                forall|k: int| 0 <= k < j ==> (#[trigger] datums@[k])@ == self.datums@[k]@,
            decreases self.datums.len() - j,
        {
            datums.push(self.datums[j].copy());
            j = j + 1;
        }
        let r = Row { datums };
        assert(r@ =~= self@);
        r
    }

    /// Whether two rows hold the same datums.
    pub fn same(&self, other: &Row) -> (r: bool)
        ensures
            r == (self@ == other@),
    {
        if self.datums.len() != other.datums.len() {
            assert(self@.len() != other@.len());
            return false;
        }
        let mut j: usize = 0;
        while j < self.datums.len()
            invariant
                0 <= j <= self.datums.len(),
                self.datums.len() == other.datums.len(),
                forall|k: int| 0 <= k < j ==> self@[k] == other@[k],
            decreases self.datums.len() - j,
        {
            if !self.datums[j].same(&other.datums[j]) {
                assert(self@[j as int] != other@[j as int]);
                return false;
            }
            j = j + 1;
        }
        assert(self@ =~= other@);
        true
    }
}

impl UpsertError {
    /// A copy of this error.
    pub fn copy(&self) -> (r: UpsertError)
        ensures
            r@ == self@,
    {
        match self {
            UpsertError::KeyDecode { raw } => UpsertError::KeyDecode { raw: copy_bytes(raw) },
            UpsertError::NullKey => UpsertError::NullKey,
            UpsertError::Value { for_key } => UpsertError::Value { for_key: for_key.copy() },
        }
    }

    /// Whether two errors are the same value.
    pub fn same(&self, other: &UpsertError) -> (r: bool)
        ensures
            r == (self@ == other@),
    {
        match (self, other) {
            (UpsertError::KeyDecode { raw: a }, UpsertError::KeyDecode { raw: b }) => bytes_equal(a, b),
            (UpsertError::NullKey, UpsertError::NullKey) => true,
            (UpsertError::Value { for_key: a }, UpsertError::Value { for_key: b }) => a.same(b),
            _ => false,
        }
    }
}

/// A copy of a value.
pub fn copy_value(v: &UpsertValue) -> (r: UpsertValue)
    ensures
        value_view(r) == value_view(*v),
{
    match v {
        Ok(row) => Ok(row.copy()),
        Err(e) => Err(e.copy()),
    }
}

/// Whether two values are the same.
pub fn same_value(a: &UpsertValue, b: &UpsertValue) -> (r: bool)
    ensures
        r == (value_view(*a) == value_view(*b)),
{
    match (a, b) {
        (Ok(x), Ok(y)) => x.same(y),
        (Err(x), Err(y)) => x.same(y),
        _ => false,
    }
}

/// Keying by value agrees with keying by key: the key of a full row at
/// `indices` is the key of the row made of its key columns, and an error
/// is keyed alike on both paths.
pub proof fn lemma_value_key_is_key_of_projection(v: ValueView, indices: Seq<usize>)
    ensures
        v matches Ok(row) ==> key_of(project_value(v, indices)) == key_of(Ok(project(row, indices))),
        v is Err ==> key_of(project_value(v, indices)) == key_of(v),
{
}

/// Keys are a function of the logical key alone: values with the same key
/// datums get the same key, and a value error keyed by its projected key
/// columns gets the key of that key row.
pub proof fn lemma_key_depends_on_key_datums(a: ValueView, b: ValueView)
    ensures
        key_datums(a) == key_datums(b) ==> key_of(a) == key_of(b),
        a matches Ok(row) ==> key_of(a) == key_of(Err(ErrorView::Value(row))),
{
}

/// On rows whose key columns stand at sorted, distinct, in-range
/// positions, the key columns are the datums at those positions, in order.
pub proof fn lemma_project_sorted(row: Seq<DatumView>, indices: Seq<usize>)
    requires
        row.len() <= usize::MAX,
        forall|i: int| 0 <= i < indices.len() ==> #[trigger] indices[i] < row.len(),
        forall|i: int, j: int| 0 <= i < j < indices.len() ==> indices[i] < indices[j],
    ensures
        project(row, indices) == indices.map_values(|i: usize| row[i as int]),
{
    lemma_project_sorted_upto(row, indices, row.len() as int);
    let n = count_below(indices, row.len() as int);
    assert(n == indices.len()) by {
        lemma_count_below_all(indices, row.len() as int);
    }
    assert(indices.subrange(0, n) =~= indices);
}

/// The number of `indices` below `n`, for sorted distinct `indices`.
spec fn count_below(indices: Seq<usize>, n: int) -> int
    decreases n,
{
    if n <= 0 {
        0
    } else if indices.contains((n - 1) as usize) {
        count_below(indices, n - 1) + 1
    } else {
        count_below(indices, n - 1)
    }
}

proof fn lemma_count_below_all(indices: Seq<usize>, len: int)
    requires
        0 <= len <= usize::MAX,
        forall|i: int| 0 <= i < indices.len() ==> #[trigger] indices[i] < len,
        forall|i: int, j: int| 0 <= i < j < indices.len() ==> indices[i] < indices[j],
    ensures
        count_below(indices, len) == indices.len(),
{
    lemma_count_below_prefix(indices, len, len);
    let c = count_below(indices, len);
    if c < indices.len() {
        assert(indices[c] >= len);
    }
}

/// Below `n`, the sorted `indices` are exactly a prefix of them.
proof fn lemma_count_below_prefix(indices: Seq<usize>, len: int, n: int)
    requires
        0 <= n <= len <= usize::MAX,
        forall|i: int| 0 <= i < indices.len() ==> #[trigger] indices[i] < len,
        forall|i: int, j: int| 0 <= i < j < indices.len() ==> indices[i] < indices[j],
    ensures
        0 <= count_below(indices, n) <= indices.len(),
        forall|i: int| 0 <= i < count_below(indices, n) ==> #[trigger] indices[i] < n,
        forall|i: int| count_below(indices, n) <= i < indices.len() ==> #[trigger] indices[i] >= n,
    decreases n,
{
    if n > 0 {
        lemma_count_below_prefix(indices, len, n - 1);
        let c = count_below(indices, n - 1);
        if indices.contains((n - 1) as usize) {
            let k = choose|k: int| 0 <= k < indices.len() && indices[k] == (n - 1) as usize;
            assert(k == c) by {
                if k < c {
                    assert(indices[k] < n - 1);
                } else if k > c {
                    assert(indices[c] >= n - 1);
                    assert(indices[c] < indices[k]);
                }
            }
        } else {
            assert forall|i: int| c <= i < indices.len() implies #[trigger] indices[i] >= n by {
                if indices[i] == n - 1 {
                    assert(indices.contains((n - 1) as usize));
                }
            }
        }
    } else {
        assert forall|i: int| 0 <= i < indices.len() implies #[trigger] indices[i] >= n by {}
    }
}

proof fn lemma_project_sorted_upto(row: Seq<DatumView>, indices: Seq<usize>, n: int)
    requires
        0 <= n <= row.len() <= usize::MAX,
        forall|i: int| 0 <= i < indices.len() ==> #[trigger] indices[i] < row.len(),
        forall|i: int, j: int| 0 <= i < j < indices.len() ==> indices[i] < indices[j],
    ensures
        0 <= count_below(indices, n) <= indices.len(),
        project_upto(row, indices, n) == indices.subrange(0, count_below(indices, n)).map_values(
            |i: usize| row[i as int],
        ),
    decreases n,
{
    lemma_count_below_prefix(indices, row.len() as int, n);
    if n > 0 {
        lemma_project_sorted_upto(row, indices, n - 1);
        lemma_count_below_prefix(indices, row.len() as int, n - 1);
        let c = count_below(indices, n - 1);
        if indices.contains((n - 1) as usize) {
            let k = choose|k: int| 0 <= k < indices.len() && indices[k] == (n - 1) as usize;
            assert(k == c) by {
                if k < c {
                    assert(indices[k] < n - 1);
                } else if k > c {
                    assert(indices[c] >= n - 1);
                    assert(indices[c] < indices[k]);
                }
            }
            assert(indices.subrange(0, c + 1).map_values(|i: usize| row[i as int]) =~= indices.subrange(
                0,
                c,
            ).map_values(|i: usize| row[i as int]).push(row[n - 1]));
        }
    } else {
        assert(indices.subrange(0, 0).map_values(|i: usize| row[i as int]) =~= Seq::<DatumView>::empty());
    }
}

} // verus!
