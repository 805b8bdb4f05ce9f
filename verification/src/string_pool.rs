use vstd::prelude::*;
use vstd::utf8::{valid_utf8, decode_utf8, encode_utf8, encode_utf8_valid_utf8, encode_utf8_decode_utf8};
use crate::errors::Error;

verus! {

/// A handle to an interned string: the byte range it occupies in the pool's
/// buffer. Two `Ref`s from the same pool compare equal exactly when the
/// strings they denote are equal; `Ref`s from distinct pools must not be
/// mixed.
#[derive(Debug, Clone, Copy, PartialEq, Eq, Structural)]
pub struct Ref {
    begin: u32,
    end: u32,
}

impl Ref {
    pub closed spec fn spec_begin(self) -> u32 {
        self.begin
    }

    pub closed spec fn spec_end(self) -> u32 {
        self.end
    }

    /// Number of bytes the referenced string occupies.
    pub open spec fn spec_len(self) -> int {
        self.spec_end() - self.spec_begin()
    }

    pub open spec fn spec_is_empty(self) -> bool {
        self.spec_end() <= self.spec_begin()
    }

    pub fn is_empty(self) -> (r: bool)
        ensures
            r == self.spec_is_empty(),
    {
        self.end <= self.begin
    }

    pub fn num_bytes(self) -> (r: usize)
        requires
            self.spec_begin() <= self.spec_end(),
        ensures
            r == self.spec_len(),
    {
        (self.end - self.begin) as usize
    }
}

impl Default for Ref {
    /// The `Ref` of the empty string.
    fn default() -> (r: Self)
        ensures
            r.spec_begin() == 0 && r.spec_end() == 0,
    {
        Self { begin: 0, end: 0 }
    }
}

/// A dense 1-based index of an interned string; index 0 is reserved for the
/// empty string.
#[derive(Debug, Clone, Copy, PartialEq, Eq, Structural)]
pub struct Idx(u32);

impl Idx {
    pub closed spec fn spec_val(self) -> u32 {
        self.0
    }

    pub open spec fn spec_is_empty(self) -> bool {
        self.spec_val() == 0
    }

    pub fn is_empty(self) -> (r: bool)
        ensures
            r == self.spec_is_empty(),
    {
        self.0 == 0
    }

    /// 0-based position among the non-empty interned strings.
    pub fn index(self) -> (r: usize)
        requires
            !self.spec_is_empty(),
        ensures
            r == self.spec_val() - 1,
    {
        self.0 as usize - 1
    }
}

impl Idx {
    /// Two indices with the same value are the same index.
    pub proof fn lemma_val_injective(a: Idx, b: Idx)
        requires
            a.spec_val() == b.spec_val(),
        ensures
            a == b,
    {
    }
}

impl Default for Idx {
    /// The `Idx` of the empty string.
    fn default() -> (r: Self)
        ensures
            r.spec_val() == 0,
    {
        Self(0)
    }
}

/// The FNV-1a offset basis.
pub open spec fn fnv_offset() -> u64 {
    0xcbf29ce484222325u64
}

/// One FNV-1a step: xor the byte in, multiply by the FNV prime (wrapping).
pub open spec fn fnv_step(h: u64, b: u8) -> u64 {
    vstd::wrapping::u64_specs::wrapping_mul(h ^ (b as u64), 0x100000001b3u64)
}

pub open spec fn fnv_from(h: u64, bytes: Seq<u8>) -> u64
    decreases bytes.len(),
{
    if bytes.len() == 0 {
        h
    } else {
        fnv_from(fnv_step(h, bytes[0]), bytes.drop_first())
    }
}

/// The FNV-1a hash of a byte sequence. The pool uses it to place strings in
/// its table; no contract depends on the hash values themselves, only on the
/// hash being a function of the bytes.
pub open spec fn fnv64(bytes: Seq<u8>) -> u64 {
    fnv_from(fnv_offset(), bytes)
}

proof fn lemma_fnv_from_step(h: u64, bytes: Seq<u8>, i: int)
    requires
        0 <= i < bytes.len(),
    ensures
        fnv_from(h, bytes.skip(i)) == fnv_from(fnv_step(h, bytes[i]), bytes.skip(i + 1)),
{
    assert(bytes.skip(i).len() > 0);
    assert(bytes.skip(i)[0] == bytes[i]);
    assert(bytes.skip(i).drop_first() =~= bytes.skip(i + 1));
}

/// Compute the FNV-1a hash of a byte slice.
fn fnv_hash(bytes: &[u8]) -> (r: u64)
    ensures
        r == fnv64(bytes@),
{
    let mut h: u64 = 0xcbf29ce484222325u64;
    let n = bytes.len();
    let mut i: usize = 0;
    proof {
        assert(bytes@.skip(0) =~= bytes@);
    }
    while i < n
        invariant
            n == bytes@.len(),
            0 <= i <= n,
            fnv64(bytes@) == fnv_from(h, bytes@.skip(i as int)),
        decreases n - i,
    {
        let b = bytes[i];
        proof {
            lemma_fnv_from_step(h, bytes@, i as int);
        }
        h = (h ^ (b as u64)).wrapping_mul(0x100000001b3u64);
        i = i + 1;
    }
    proof {
        assert(bytes@.skip(n as int) =~= Seq::<u8>::empty());
    }
    h
}

#[derive(Debug, Clone, Copy)]
struct MapEntry {
    r: Ref,
    hash: u64,
    idx: Idx,
}

/// The slot that the `k`-th probe for hash `h` visits in a table of `cap`
/// slots: quadratic probing along the triangular numbers.
pub open spec fn probe_slot(cap: int, h: u64, k: int) -> int
    recommends
        cap > 0,
{
    ((h as int) % cap + (k * (k + 1)) / 2) % cap
}

pub open spec fn is_pow2(n: int) -> bool
    decreases n,
{
    if n <= 0 {
        false
    } else if n == 1 {
        true
    } else {
        n % 2 == 0 && is_pow2(n / 2)
    }
}

/// An interning pool for UTF-8 strings.
///
/// The pool owns a byte buffer holding every interned string back to back,
/// and an open-addressed hash table for lookups. Both handle kinds — the
/// byte-range `Ref` and the dense `Idx` — are stable: interning an already
/// interned string returns the very same handles.
#[derive(Debug)]
pub struct Pool {
    pool: Vec<u8>,
    map: Vec<MapEntry>,
    strings: Vec<Ref>,
}

impl View for Pool {
    /// The sequence of interned strings, as character sequences, in `Idx`
    /// order. Index 0 is the reserved empty string.
    type V = Seq<Seq<char>>;

    closed spec fn view(&self) -> Seq<Seq<char>> {
        Seq::new(self.strings@.len(), |i: int| decode_utf8(self.str_bytes_at(i)))
    }
}

impl Pool {
    /// The bytes of the `i`-th interned string.
    pub closed spec fn str_bytes_at(self, i: int) -> Seq<u8> {
        self.pool@.subrange(
            self.strings@[i].spec_begin() as int,
            self.strings@[i].spec_end() as int,
        )
    }

    /// The `Ref` handle of the `i`-th interned string.
    pub closed spec fn spec_ref_at(self, i: int) -> Ref {
        self.strings@[i]
    }

    pub closed spec fn spec_pool_len(self) -> int {
        self.pool@.len() as int
    }

    spec fn cap(self) -> int {
        self.map@.len() as int
    }

    spec fn slot_empty(self, j: int) -> bool {
        self.map@[j].r.spec_is_empty()
    }

    /// A live table entry describes one interned string exactly.
    spec fn entry_ok(self, j: int) -> bool {
        let e = self.map@[j];
        &&& 1 <= e.idx.spec_val() < self.strings@.len()
        &&& e.r == self.strings@[e.idx.spec_val() as int]
        &&& e.hash == fnv64(self.str_bytes_at(e.idx.spec_val() as int))
    }

    /// String `i` is reachable in table `map` by probing for its hash: some
    /// probe step lands on its entry and every earlier step lands on a live
    /// slot.
    spec fn findable_in(self, map: Seq<MapEntry>, cap: int, i: int) -> bool {
        exists|k: int|
            {
                &&& 0 <= k < cap / 2
                &&& !map[#[trigger] probe_slot(cap, fnv64(self.str_bytes_at(i)), k)].r.spec_is_empty()
                &&& map[probe_slot(cap, fnv64(self.str_bytes_at(i)), k)].idx.spec_val() == i
                &&& forall|k2: int|
                    0 <= k2 < k ==> !map[#[trigger] probe_slot(
                        cap,
                        fnv64(self.str_bytes_at(i)),
                        k2,
                    )].r.spec_is_empty()
            }
    }

    spec fn findable(self, i: int) -> bool {
        self.findable_in(self.map@, self.cap(), i)
    }

    spec fn refs_wf(self) -> bool {
        &&& 1 <= self.strings@.len() < u32::MAX
        &&& self.pool@.len() < u32::MAX
        &&& self.strings@[0].spec_begin() == 0 && self.strings@[0].spec_end() == 0
        &&& forall|i: int|
            0 <= i < self.strings@.len() ==> (#[trigger] self.strings@[i]).spec_begin()
                <= self.strings@[i].spec_end() <= self.pool@.len()
        &&& forall|i: int|
            1 <= i < self.strings@.len() ==> (#[trigger] self.strings@[i]).spec_begin()
                == self.strings@[i - 1].spec_end()
        &&& forall|i: int|
            1 <= i < self.strings@.len() ==> (#[trigger] self.strings@[i]).spec_begin()
                < self.strings@[i].spec_end()
        &&& self.strings@[self.strings@.len() - 1].spec_end() == self.pool@.len()
    }

    spec fn map_wf(self) -> bool {
        &&& is_pow2(self.cap())
        &&& self.cap() >= 1024
        &&& self.cap() % 8 == 0
        &&& self.cap() <= usize::MAX / 2
        &&& self.cap() == 1024 || self.strings@.len() * 8 >= self.cap()
        &&& self.strings@.len() <= self.cap() / 8 * 5
        &&& forall|j: int| 0 <= j < self.cap() && !self.slot_empty(j) ==> self.entry_ok(j)
        &&& forall|j1: int, j2: int|
            0 <= j1 < self.cap() && 0 <= j2 < self.cap() && j1 != j2 && !self.slot_empty(j1)
                && !self.slot_empty(j2) ==> self.map@[j1].idx.spec_val()
                != self.map@[j2].idx.spec_val()
        &&& forall|i: int| 1 <= i < self.strings@.len() ==> self.findable(i)
    }

    /// The pool's internal invariant.
    pub closed spec fn wf(self) -> bool {
        &&& self.refs_wf()
        &&& self.map_wf()
        &&& forall|i: int| 0 <= i < self.strings@.len() ==> valid_utf8(#[trigger] self.str_bytes_at(i))
        &&& forall|i: int, j: int|
            1 <= i < self.strings@.len() && 1 <= j < self.strings@.len() && i != j
                ==> self.str_bytes_at(i) != self.str_bytes_at(j)
    }

    /// True when `s` is one of the pool's interned strings; its index is then
    /// unique.
    pub open spec fn contains_str(self, s: Seq<char>) -> bool {
        exists|i: int| 0 <= i < self@.len() && self@[i] == s
    }

    /// Bounds that the pool keeps on its table: the capacity only ever
    /// exceeds its initial value when the string count justifies it.
    pub proof fn lemma_cap_bound(self)
        requires
            self.wf(),
        ensures
            self.spec_cap() == 1024 || self@.len() * 8 >= self.spec_cap(),
            self.spec_cap() >= 1024,
            self.spec_pool_len() >= 0,
            1 <= self@.len() < u32::MAX,
    {
    }

    /// The index of interned string `s`.
    pub open spec fn index_of(self, s: Seq<char>) -> int {
        choose|i: int| 0 <= i < self@.len() && self@[i] == s
    }

    fn make_map(size: usize) -> (r: Vec<MapEntry>)
        ensures
            r@.len() == size,
            forall|j: int| 0 <= j < size ==> (#[trigger] r@[j]).r.spec_is_empty(),
    {
        let mut v: Vec<MapEntry> = Vec::new();
        let mut i: usize = 0;
        while i < size
            invariant
                0 <= i <= size,
                v@.len() == i,
                forall|j: int| 0 <= j < i ==> (#[trigger] v@[j]).r.spec_is_empty(),
            decreases size - i,
        {
            v.push(MapEntry { r: Ref { begin: 0, end: 0 }, hash: 0, idx: Idx(0) });
            i = i + 1;
        }
        v
    }

    /// A fresh pool holding only the reserved empty string.
    pub fn new() -> (r: Self)
        ensures
            r.wf(),
            r@.len() == 1,
            r@[0] == Seq::<char>::empty(),
            r.spec_ref_at(0).spec_begin() == 0 && r.spec_ref_at(0).spec_end() == 0,
            r.spec_pool_len() == 0,
            r.spec_cap() == 1024,
    {
        let mut strings: Vec<Ref> = Vec::new();
        strings.push(Ref { begin: 0, end: 0 });
        let r = Self { pool: Vec::new(), map: Self::make_map(1024), strings };
        proof {
            assert(r.cap() == 1024);
            assert(is_pow2(1024)) by {
                reveal_with_fuel(is_pow2, 12);
            }
            assert(r.str_bytes_at(0) =~= Seq::<u8>::empty());
            assert(valid_utf8(Seq::<u8>::empty()));
            assert(r@[0] =~= Seq::<char>::empty());
        }
        r
    }

    /// The number of interned strings, the reserved empty string not counted.
    pub fn string_count(&self) -> (r: usize)
        requires
            self.wf(),
        ensures
            r == self@.len() - 1,
    {
        self.strings.len() - 1
    }

    /// The `Ref` handle of the string with index `idx`.
    pub fn ref_by_idx(&self, idx: Idx) -> (r: Ref)
        requires
            self.wf(),
            idx.spec_val() < self@.len(),
        ensures
            r == self.spec_ref_at(idx.spec_val() as int),
    {
        self.strings[idx.0 as usize]
    }
}

spec fn divides(d: int, x: int) -> bool {
    exists|q: int| x == #[trigger] (d * q)
}

proof fn lemma_mod_zero_divides(x: int, m: int)
    requires
        m > 0,
        x % m == 0,
    ensures
        divides(m, x),
{
    vstd::arithmetic::div_mod::lemma_fundamental_div_mod(x, m);
    assert(x == m * (x / m));
}

proof fn lemma_pow2_pos(p: int)
    requires
        is_pow2(p),
    ensures
        p >= 1,
    decreases p,
{
}

proof fn lemma_pow2_double(p: int)
    requires
        is_pow2(p),
    ensures
        is_pow2(2 * p),
{
    lemma_pow2_pos(p);
    assert(2 * p != 1);
    assert((2 * p) % 2 == 0);
    assert((2 * p) / 2 == p);
}

/// An odd number is coprime to every power of two: if a power of two divides
/// `a * b` with `a` odd, it divides `b`.
proof fn lemma_odd_factor_pow2(p: int, a: int, b: int)
    requires
        is_pow2(p),
        a % 2 == 1,
        b >= 0,
        divides(p, a * b),
    ensures
        divides(p, b),
    decreases p,
{
    if p == 1 {
        assert(b == 1 * b);
    } else {
        let q = choose|q: int| a * b == #[trigger] (p * q);
        assert(p % 2 == 0 && is_pow2(p / 2));
        let p2 = p / 2;
        lemma_pow2_pos(p2);
        assert(p == 2 * p2);
        // a odd and a * b == 2 * (p2 * q) forces b even
        assert(b % 2 == 0) by {
            if b % 2 != 0 {
                let a2 = a / 2;
                let b2 = b / 2;
                assert(a == 2 * a2 + 1);
                assert(b == 2 * b2 + 1);
                assert(a * b == 2 * (2 * a2 * b2 + a2 + b2) + 1) by (nonlinear_arith)
                    requires
                        a == 2 * a2 + 1,
                        b == 2 * b2 + 1,
                ;
                assert(a * b == 2 * (p2 * q)) by (nonlinear_arith)
                    requires
                        a * b == p * q,
                        p == 2 * p2,
                ;
                assert(false) by (nonlinear_arith)
                    requires
                        2 * (2 * a2 * b2 + a2 + b2) + 1 == 2 * (p2 * q),
                ;
            }
        }
        let bh = b / 2;
        assert(b == 2 * bh);
        assert(a * bh == p2 * q) by (nonlinear_arith)
            requires
                a * b == p * q,
                p == 2 * p2,
                b == 2 * bh,
        ;
        assert(divides(p2, a * bh));
        lemma_odd_factor_pow2(p2, a, bh);
        let q2 = choose|q2: int| bh == #[trigger] (p2 * q2);
        assert(b == p * q2) by (nonlinear_arith)
            requires
                bh == p2 * q2,
                b == 2 * bh,
                p == 2 * p2,
        ;
    }
}

/// The triangular number `k * (k + 1) / 2`.
spec fn tri(k: int) -> int {
    (k * (k + 1)) / 2
}

/// The product of two consecutive integers is even.
proof fn lemma_consecutive_even(k: int)
    requires
        k >= 0,
    ensures
        (k * (k + 1)) % 2 == 0,
{
    let m = k / 2;
    vstd::arithmetic::div_mod::lemma_fundamental_div_mod(k, 2);
    if k % 2 == 0 {
        assert(k * (k + 1) == (m * (k + 1)) * 2) by (nonlinear_arith)
            requires
                k == 2 * m,
        ;
        vstd::arithmetic::div_mod::lemma_mod_multiples_basic(m * (k + 1), 2);
    } else {
        assert(k * (k + 1) == ((m + 1) * k) * 2) by (nonlinear_arith)
            requires
                k == 2 * m + 1,
        ;
        vstd::arithmetic::div_mod::lemma_mod_multiples_basic((m + 1) * k, 2);
    }
}

proof fn lemma_tri_step(k: int)
    requires
        k >= 0,
    ensures
        tri(k + 1) == tri(k) + k + 1,
        tri(k) >= 0,
{
    lemma_consecutive_even(k);
    let a = k * (k + 1);
    let t = a / 2;
    vstd::arithmetic::div_mod::lemma_fundamental_div_mod(a, 2);
    assert(a == 2 * t);
    assert((k + 1) * (k + 2) == 2 * (t + k + 1)) by (nonlinear_arith)
        requires
            a == k * (k + 1),
            a == 2 * t,
    ;
    vstd::arithmetic::div_mod::lemma_div_multiples_vanish(t + k + 1, 2);
    vstd::arithmetic::div_mod::lemma_div_multiples_vanish(t, 2);
    assert(a >= 0) by (nonlinear_arith)
        requires
            k >= 0,
            a == k * (k + 1),
    ;
}

proof fn lemma_tri_nonneg(k: int)
    requires
        k >= 0,
    ensures
        tri(k) >= 0,
{
    assert(k * (k + 1) >= 0) by (nonlinear_arith)
        requires
            k >= 0,
    ;
}

/// Two distinct probe steps within the first half of a power-of-two table
/// land on distinct slots.
proof fn lemma_probe_distinct(cap: int, h: u64, k1: int, k2: int)
    requires
        is_pow2(cap),
        cap >= 2,
        0 <= k1 < k2,
        k2 < cap / 2,
    ensures
        probe_slot(cap, h, k1) != probe_slot(cap, h, k2),
{
    if probe_slot(cap, h, k1) == probe_slot(cap, h, k2) {
        let base = (h as int) % cap;
        let x1 = base + tri(k1);
        let x2 = base + tri(k2);
        lemma_tri_nonneg(k1);
        lemma_tri_nonneg(k2);
        vstd::arithmetic::div_mod::lemma_fundamental_div_mod(x1, cap);
        vstd::arithmetic::div_mod::lemma_fundamental_div_mod(x2, cap);
        let diff = x2 - x1;
        assert(diff == cap * (x2 / cap - x1 / cap)) by (nonlinear_arith)
            requires
                x1 == cap * (x1 / cap) + x1 % cap,
                x2 == cap * (x2 / cap) + x2 % cap,
                x1 % cap == x2 % cap,
                diff == x2 - x1,
        ;
        let d = k2 - k1;
        let s = k1 + k2 + 1;
        lemma_consecutive_even(k1);
        lemma_consecutive_even(k2);
        let a1 = k1 * (k1 + 1);
        let a2 = k2 * (k2 + 1);
        vstd::arithmetic::div_mod::lemma_fundamental_div_mod(a1, 2);
        vstd::arithmetic::div_mod::lemma_fundamental_div_mod(a2, 2);
        // 2 * (tri(k2) - tri(k1)) == d * s
        assert(2 * diff == d * s) by (nonlinear_arith)
            requires
                diff == tri(k2) - tri(k1),
                tri(k1) == a1 / 2,
                tri(k2) == a2 / 2,
                a1 == k1 * (k1 + 1),
                a2 == k2 * (k2 + 1),
                a1 == 2 * (a1 / 2),
                a2 == 2 * (a2 / 2),
                d == k2 - k1,
                s == k1 + k2 + 1,
        ;
        let q = x2 / cap - x1 / cap;
        assert(d * s == (2 * cap) * q) by (nonlinear_arith)
            requires
                2 * diff == d * s,
                diff == cap * q,
        ;
        assert(divides(2 * cap, d * s));
        lemma_pow2_double(cap);
        // d + s == 2 * k2 + 1 is odd, so exactly one of d, s is odd
        if d % 2 == 1 {
            lemma_odd_factor_pow2(2 * cap, d, s);
            let qs = choose|qs: int| s == #[trigger] ((2 * cap) * qs);
            assert(false) by (nonlinear_arith)
                requires
                    s == (2 * cap) * qs,
                    0 < s < 2 * cap,
            ;
        } else {
            assert(d % 2 == 0);
            assert(s % 2 == 1) by (nonlinear_arith)
                requires
                    d % 2 == 0,
                    d == k2 - k1,
                    s == k1 + k2 + 1,
            ;
            assert(d * s == s * d);
            lemma_odd_factor_pow2(2 * cap, s, d);
            let qd = choose|qd: int| d == #[trigger] ((2 * cap) * qd);
            assert(false) by (nonlinear_arith)
                requires
                    d == (2 * cap) * qd,
                    0 < d < 2 * cap,
            ;
        }
    }
}

proof fn lemma_probe_slot_bound(cap: int, h: u64, k: int)
    requires
        cap > 0,
        k >= 0,
    ensures
        0 <= probe_slot(cap, h, k) < cap,
{
    lemma_tri_nonneg(k);
    vstd::arithmetic::div_mod::lemma_mod_bound((h as int) % cap + tri(k), cap);
    vstd::arithmetic::div_mod::lemma_mod_bound(h as int, cap);
}

/// In a power-of-two table whose live entries carry pairwise distinct string
/// indices below `s_len`, fewer strings than half the capacity guarantees
/// that probing finds an empty slot: the probed slots are pairwise distinct,
/// so they cannot all be live.
proof fn lemma_probe_finds_empty(map: Seq<MapEntry>, h: u64, s_len: int)
    requires
        is_pow2(map.len() as int),
        map.len() >= 2,
        forall|j1: int, j2: int|
            0 <= j1 < map.len() && 0 <= j2 < map.len() && j1 != j2 && !map[j1].r.spec_is_empty()
                && !map[j2].r.spec_is_empty() ==> map[j1].idx.spec_val() != map[j2].idx.spec_val(),
        forall|j: int|
            0 <= j < map.len() && !(#[trigger] map[j]).r.spec_is_empty() ==> 1 <= map[j].idx.spec_val()
                < s_len,
        1 <= s_len,
        s_len - 1 < (map.len() as int) / 2,
    ensures
        exists|k: int|
            0 <= k < (map.len() as int) / 2 && map[#[trigger] probe_slot(
                map.len() as int,
                h,
                k,
            )].r.spec_is_empty(),
{
    let cap = map.len() as int;
    let half = cap / 2;
    if !(exists|k: int|
        0 <= k < half && map[#[trigger] probe_slot(cap, h, k)].r.spec_is_empty()) {
        assert forall|k: int| 0 <= k < half implies !map[#[trigger] probe_slot(
            cap,
            h,
            k,
        )].r.spec_is_empty() by {}
        let idxs = Seq::new(half as nat, |k: int| map[probe_slot(cap, h, k)].idx.spec_val() as int);
        assert forall|i: int, j: int|
            0 <= i < idxs.len() && 0 <= j < idxs.len() && i != j implies idxs[i] != idxs[j] by {
            if i < j {
                lemma_probe_distinct(cap, h, i, j);
            } else {
                lemma_probe_distinct(cap, h, j, i);
            }
            lemma_probe_slot_bound(cap, h, i);
            lemma_probe_slot_bound(cap, h, j);
        }
        assert(idxs.no_duplicates());
        idxs.unique_seq_to_set();
        vstd::set_lib::lemma_int_range(1, s_len);
        assert(idxs.to_set().subset_of(vstd::set_lib::set_int_range(1, s_len))) by {
            assert forall|x: int| idxs.to_set().contains(x) implies vstd::set_lib::set_int_range(
                1,
                s_len,
            ).contains(x) by {
                let k = choose|k: int| 0 <= k < idxs.len() && idxs[k] == x;
                lemma_probe_slot_bound(cap, h, k);
            }
        }
        vstd::set_lib::lemma_len_subset(idxs.to_set(), vstd::set_lib::set_int_range(1, s_len));
        assert(false);
    }
}

/// Find the first empty slot in the probe sequence for `hash`.
fn probe_first_empty(map: &Vec<MapEntry>, hash: u64) -> (slot: usize)
    requires
        is_pow2(map@.len() as int),
        2 <= map@.len() <= usize::MAX / 2,
        exists|k: int|
            0 <= k < (map@.len() as int) / 2 && map@[#[trigger] probe_slot(
                map@.len() as int,
                hash,
                k,
            )].r.spec_is_empty(),
    ensures
        slot < map@.len(),
        map@[slot as int].r.spec_is_empty(),
        exists|k: int|
            {
                &&& 0 <= k < (map@.len() as int) / 2
                &&& slot == #[trigger] probe_slot(map@.len() as int, hash, k)
                &&& forall|k2: int|
                    0 <= k2 < k ==> !map@[#[trigger] probe_slot(
                        map@.len() as int,
                        hash,
                        k2,
                    )].r.spec_is_empty()
            },
{
    let cap = map.len();
    let half = cap / 2;
    let mut cur: usize = (hash % (cap as u64)) as usize;
    let mut k: usize = 0;
    proof {
        lemma_probe_slot_bound(cap as int, hash, 0);
        assert(tri(0) == 0);
        vstd::arithmetic::div_mod::lemma_mod_bound(hash as int, cap as int);
        vstd::arithmetic::div_mod::lemma_small_mod(
            ((hash as int) % (cap as int)) as nat,
            cap as nat,
        );
        assert(cur == probe_slot(cap as int, hash, 0));
    }
    loop
        invariant
            cap == map@.len(),
            half == cap / 2,
            2 <= cap <= usize::MAX / 2,
            is_pow2(cap as int),
            0 <= k <= half,
            cur == probe_slot(cap as int, hash, k as int),
            cur < cap,
            forall|k2: int|
                0 <= k2 < k ==> !map@[#[trigger] probe_slot(
                    cap as int,
                    hash,
                    k2,
                )].r.spec_is_empty(),
            exists|ke: int|
                0 <= ke < (cap as int) / 2 && map@[#[trigger] probe_slot(
                    cap as int,
                    hash,
                    ke,
                )].r.spec_is_empty(),
        decreases half - k,
    {
        if map[cur].r.is_empty() {
            return cur;
        }
        proof {
            let ke = choose|ke: int|
                0 <= ke < (cap as int) / 2 && map@[#[trigger] probe_slot(
                    cap as int,
                    hash,
                    ke,
                )].r.spec_is_empty();
            assert(k as int != ke);
            assert(k < half);
        }
        k = k + 1;
        proof {
            lemma_tri_step(k as int - 1);
            vstd::arithmetic::div_mod::lemma_add_mod_noop(
                (hash as int) % (cap as int) + tri(k as int - 1),
                k as int,
                cap as int,
            );
            vstd::arithmetic::div_mod::lemma_mod_bound(
                (hash as int) % (cap as int) + tri(k as int - 1),
                cap as int,
            );
            vstd::arithmetic::div_mod::lemma_small_mod(k as nat, cap as nat);
            lemma_probe_slot_bound(cap as int, hash, k as int);
        }
        cur = (cur + k) % cap;
    }
}

/// Compare two byte slices for equality.
pub(crate) fn bytes_eq(a: &[u8], b: &[u8]) -> (r: bool)
    ensures
        r == (a@ == b@),
{
    if a.len() != b.len() {
        return false;
    }
    let n = a.len();
    let mut i: usize = 0;
    while i < n
        invariant
            n == a@.len() == b@.len(),
            0 <= i <= n,
            forall|j: int| 0 <= j < i ==> a@[j] == b@[j],
        decreases n - i,
    {
        if a[i] != b[i] {
            return false;
        }
        i = i + 1;
    }
    proof {
        assert(a@ =~= b@);
    }
    true
}

/// Relies on `core::str::from_utf8`: it succeeds exactly on valid UTF-8
/// input, and the returned string slice's bytes are the input bytes.
#[verifier::external_body]
pub(crate) fn try_str_from_utf8(bytes: &[u8]) -> (r: Option<&str>)
    ensures
        r matches Some(s) ==> encode_utf8(s@) == bytes@,
        valid_utf8(bytes@) ==> r is Some,
{
    core::str::from_utf8(bytes).ok()
}

/// A non-empty character sequence has a non-empty UTF-8 encoding.
proof fn lemma_encode_nonempty(s: Seq<char>)
    requires
        s.len() > 0,
    ensures
        encode_utf8(s).len() > 0,
{
    vstd::utf8::char_is_scalar(s[0]);
    assert(vstd::utf8::encode_scalar(s[0] as u32).len() >= 1);
}

impl Pool {
    /// Facts about the view of a well-formed pool: index 0 is the empty
    /// string, every other entry is non-empty, entries are pairwise
    /// distinct, and each entry's encoding is its stored byte range.
    pub proof fn lemma_view_props(self)
        requires
            self.wf(),
        ensures
            self@.len() == self.spec_strings_len(),
            self@[0] == Seq::<char>::empty(),
            forall|i: int|
                0 <= i < self@.len() ==> (#[trigger] self.spec_ref_at(i)).spec_begin()
                    <= self.spec_ref_at(i).spec_end() <= self.spec_pool_len(),
            forall|i: int| 1 <= i < self@.len() ==> (#[trigger] self@[i]).len() > 0,
            forall|i: int, j: int|
                0 <= i < self@.len() && 0 <= j < self@.len() && i != j ==> self@[i] != self@[j],
            forall|i: int|
                0 <= i < self@.len() ==> encode_utf8(#[trigger] self@[i]) == self.str_bytes_at(i),
    {
        assert(self.str_bytes_at(0) =~= Seq::<u8>::empty());
        assert(self@[0] == Seq::<char>::empty());
        assert forall|i: int| 0 <= i < self@.len() implies encode_utf8(#[trigger] self@[i])
            == self.str_bytes_at(i) by {
            vstd::utf8::decode_utf8_encode_utf8(self.str_bytes_at(i));
        }
        assert forall|i: int| 1 <= i < self@.len() implies (#[trigger] self@[i]).len() > 0 by {
            if self@[i].len() == 0 {
                assert(encode_utf8(self@[i]) =~= Seq::<u8>::empty());
                assert(self.str_bytes_at(i).len() > 0);
            }
        }
        assert forall|i: int, j: int|
            0 <= i < self@.len() && 0 <= j < self@.len() && i != j implies self@[i] != self@[j] by {
            if self@[i] == self@[j] {
                assert(encode_utf8(self@[i]) == encode_utf8(self@[j]));
                if i == 0 || j == 0 {
                    assert(self.str_bytes_at(0).len() == 0);
                } else {
                    assert(self.str_bytes_at(i) != self.str_bytes_at(j));
                }
            }
        }
    }

    pub closed spec fn spec_strings_len(self) -> int {
        self.strings@.len() as int
    }

    /// The index of `s` in a well-formed pool is unique.
    pub proof fn lemma_index_unique(self, s: Seq<char>, i: int)
        requires
            self.wf(),
            0 <= i < self@.len(),
            self@[i] == s,
        ensures
            self.contains_str(s),
            self.index_of(s) == i,
    {
        self.lemma_view_props();
    }

    /// Look up the text of a `Ref` previously returned by this pool.
    pub fn get<'a>(&'a self, r: Ref) -> (s: &'a str)
        requires
            self.wf(),
            exists|i: int| 0 <= i < self@.len() && self.spec_ref_at(i) == r,
        ensures
            forall|i: int| 0 <= i < self@.len() && self.spec_ref_at(i) == r ==> s@ == self@[i],
    {
        let ghost wi = choose|i: int| 0 <= i < self@.len() && self.spec_ref_at(i) == r;
        let sl = vstd::slice::slice_subrange(
            self.pool.as_slice(),
            r.begin as usize,
            r.end as usize,
        );
        proof {
            assert(sl@ == self.str_bytes_at(wi));
        }
        match try_str_from_utf8(sl) {
            Some(s) => {
                proof {
                    vstd::utf8::encode_utf8_decode_utf8(s@);
                    assert(s@ == self@[wi]);
                }
                s
            },
            None => {
                proof {
                    assert(valid_utf8(sl@));
                    assert(false);
                }
                ""
            },
        }
    }

    /// The probe sequence for `s` finds no empty slot within its bounded
    /// length; an insertion would have to grow the table first.
    pub closed spec fn probe_blocked(self, s: Seq<char>) -> bool {
        forall|k: int|
            0 <= k < self.cap() / 2 ==> !self.slot_empty(
                #[trigger] probe_slot(self.cap(), fnv64(encode_utf8(s)), k),
            )
    }

    pub closed spec fn spec_cap(self) -> int {
        self.cap()
    }

    /// The conditions under which interning a string not yet in the pool is
    /// refused. The first three mirror the `u32` limits on string length,
    /// buffer size and string count; the last arises only if the table
    /// itself could no longer be doubled within the address space.
    pub open spec fn put_overflows(self, s: Seq<char>) -> bool {
        ||| encode_utf8(s).len() >= u32::MAX as int
        ||| encode_utf8(s).len() >= u32::MAX as int - self.spec_pool_len()
        ||| self@.len() >= u32::MAX as int - 1
        ||| ((self@.len() >= self.spec_cap() / 8 * 5 || self.probe_blocked(s)) && self.spec_cap()
            > usize::MAX as int / 4)
    }
}

/// The full behaviour of [`Pool::put`], as a relation between the pool
/// before the call, the pool after it, the string and the result.
///
/// A string already present — the empty string always is, at index 0 — is
/// returned with its existing handles and the pool unchanged; a new string
/// is appended, unless one of the size limits is hit, in which case the pool
/// is unchanged and an error is returned.
pub open spec fn put_spec(pre: Pool, post: Pool, s: Seq<char>, r: Result<(Ref, Idx), Error>) -> bool {
    if pre.contains_str(s) {
        &&& post == pre
        &&& r matches Ok(h) && h.1.spec_val() == pre.index_of(s) && h.0 == pre.spec_ref_at(
            pre.index_of(s),
        )
    } else if pre.put_overflows(s) {
        &&& post == pre
        &&& r is Err
    } else {
        &&& r matches Ok(h) && h.1.spec_val() == pre@.len() && h.0 == post.spec_ref_at(
            pre@.len() as int,
        ) && h.0.spec_begin() == pre.spec_pool_len() && h.0.spec_end() == pre.spec_pool_len()
            + encode_utf8(s).len()
        &&& post@ == pre@.push(s)
        &&& forall|i: int| 0 <= i < pre@.len() ==> post.spec_ref_at(i) == pre.spec_ref_at(i)
        &&& post.spec_pool_len() == pre.spec_pool_len() + encode_utf8(s).len()
    }
}

impl Pool {
    /// A probe step that neither matched `bytes` nor found an empty slot.
    spec fn probe_miss(self, h: u64, bytes: Seq<u8>, k2: int) -> bool {
        let j = probe_slot(self.cap(), h, k2);
        &&& !self.slot_empty(j)
        &&& self.str_bytes_at(self.map@[j].idx.spec_val() as int) != bytes
    }

    /// If the whole bounded probe sequence missed (or ended at an empty
    /// slot), the string is not in the pool.
    proof fn lemma_search_miss(self, s: Seq<char>, limit: int)
        requires
            self.wf(),
            s.len() > 0,
            0 <= limit <= self.cap() / 2,
            forall|k2: int|
                0 <= k2 < limit ==> self.probe_miss(fnv64(encode_utf8(s)), encode_utf8(s), k2),
            limit == self.cap() / 2 || self.slot_empty(
                probe_slot(self.cap(), fnv64(encode_utf8(s)), limit),
            ),
        ensures
            !self.contains_str(s),
    {
        if self.contains_str(s) {
            self.lemma_view_props();
            let i = self.index_of(s);
            assert(0 <= i < self@.len() && self@[i] == s);
            assert(i != 0);
            assert(self.str_bytes_at(i) == encode_utf8(s));
            assert(self.findable(i));
            let h = fnv64(encode_utf8(s));
            let ki = choose|k: int|
                {
                    &&& 0 <= k < self.cap() / 2
                    &&& !self.map@[#[trigger] probe_slot(self.cap(), fnv64(self.str_bytes_at(i)), k)].r.spec_is_empty()
                    &&& self.map@[probe_slot(self.cap(), fnv64(self.str_bytes_at(i)), k)].idx.spec_val() == i
                    &&& forall|k2: int|
                        0 <= k2 < k ==> !self.map@[#[trigger] probe_slot(
                            self.cap(),
                            fnv64(self.str_bytes_at(i)),
                            k2,
                        )].r.spec_is_empty()
                };
            assert(fnv64(self.str_bytes_at(i)) == h);
            if ki < limit {
                assert(self.probe_miss(h, encode_utf8(s), ki));
            } else {
                assert(limit < self.cap() / 2);
                assert(self.slot_empty(probe_slot(self.cap(), h, limit)));
                if ki == limit {
                } else {
                    assert(limit < ki);
                }
            }
        }
    }

    /// Double the table and reinsert every live entry.
    #[verifier::rlimit(100)]
    fn grow_table(&mut self)
        requires
            old(self).wf(),
            old(self).spec_cap() <= usize::MAX as int / 4,
            old(self).spec_strings_len() * 4 >= old(self).spec_cap(),
        ensures
            final(self).wf(),
            final(self).pool == old(self).pool,
            final(self).strings == old(self).strings,
            final(self).spec_cap() == 2 * old(self).spec_cap(),
    {
        let ghost pre = *old(self);
        let cap = self.map.len();
        let new_cap = cap * 2;
        let mut new_map = Self::make_map(new_cap);
        proof {
            lemma_pow2_double(cap as int);
        }
        let mut j: usize = 0;
        while j < cap
            invariant
                *self == pre,
                pre.wf(),
                cap == pre.spec_cap(),
                new_cap == 2 * cap,
                cap <= usize::MAX / 4,
                new_map@.len() == new_cap,
                is_pow2(new_cap as int),
                0 <= j <= cap,
                forall|s2: int|
                    0 <= s2 < new_cap && !(#[trigger] new_map@[s2]).r.spec_is_empty()
                        ==> exists|j2: int|
                        0 <= j2 < j && !pre.slot_empty(j2) && new_map@[s2] == pre.map@[j2],
                forall|s1: int, s2: int|
                    0 <= s1 < new_cap && 0 <= s2 < new_cap && s1 != s2 && !new_map@[s1].r.spec_is_empty()
                        && !new_map@[s2].r.spec_is_empty() ==> new_map@[s1].idx.spec_val()
                        != new_map@[s2].idx.spec_val(),
                forall|j2: int|
                    0 <= j2 < j && !pre.slot_empty(j2) ==> pre.findable_in(
                        new_map@,
                        new_cap as int,
                        pre.map@[j2].idx.spec_val() as int,
                    ),
            decreases cap - j,
        {
            let e = self.map[j];
            if !e.r.is_empty() {
                proof {
                    assert(pre.entry_ok(j as int));
                    assert forall|s2: int|
                        0 <= s2 < new_cap && !(#[trigger] new_map@[s2]).r.spec_is_empty() implies 1
                        <= new_map@[s2].idx.spec_val() < pre.spec_strings_len() by {
                        let j2 = choose|j2: int|
                            0 <= j2 < j && !pre.slot_empty(j2) && new_map@[s2] == pre.map@[j2];
                        assert(pre.entry_ok(j2));
                    }
                    lemma_probe_finds_empty(new_map@, e.hash, pre.spec_strings_len());
                }
                let slot = probe_first_empty(&new_map, e.hash);
                let ghost before = new_map@;
                new_map.set(slot, e);
                proof {
                    assert forall|s2: int|
                        0 <= s2 < new_cap && !(#[trigger] new_map@[s2]).r.spec_is_empty() implies exists|j2: int|
                        0 <= j2 < j + 1 && !pre.slot_empty(j2) && new_map@[s2] == pre.map@[j2] by {
                        if s2 == slot as int {
                            assert(!pre.slot_empty(j as int) && new_map@[s2]
                                == pre.map@[j as int]);
                        } else {
                            assert(!before[s2].r.spec_is_empty());
                            let j2 = choose|j2: int|
                                0 <= j2 < j && !pre.slot_empty(j2) && before[s2] == pre.map@[j2];
                            assert(0 <= j2 < j + 1 && !pre.slot_empty(j2) && new_map@[s2]
                                == pre.map@[j2]);
                        }
                    }
                    assert forall|s1: int, s2: int|
                        0 <= s1 < new_cap && 0 <= s2 < new_cap && s1 != s2
                            && !new_map@[s1].r.spec_is_empty() && !new_map@[s2].r.spec_is_empty() implies new_map@[s1].idx.spec_val()
                        != new_map@[s2].idx.spec_val() by {
                        if s1 == slot as int {
                            assert(new_map@[s1] == e);
                            assert(before[s2] == new_map@[s2]);
                            assert(!before[s2].r.spec_is_empty());
                            let j2 = choose|j2: int|
                                0 <= j2 < j && !pre.slot_empty(j2) && before[s2] == pre.map@[j2];
                            assert(e == pre.map@[j as int]);
                            assert(!pre.slot_empty(j as int));
                            assert(j2 != j as int);
                            assert(pre.map@[j as int].idx.spec_val() != pre.map@[j2].idx.spec_val());
                        } else if s2 == slot as int {
                            assert(new_map@[s2] == e);
                            assert(before[s1] == new_map@[s1]);
                            assert(!before[s1].r.spec_is_empty());
                            let j2 = choose|j2: int|
                                0 <= j2 < j && !pre.slot_empty(j2) && before[s1] == pre.map@[j2];
                            assert(e == pre.map@[j as int]);
                            assert(!pre.slot_empty(j as int));
                            assert(j2 != j as int);
                            assert(pre.map@[j as int].idx.spec_val() != pre.map@[j2].idx.spec_val());
                        } else {
                            assert(before[s1] == new_map@[s1] && before[s2] == new_map@[s2]);
                            assert(!before[s1].r.spec_is_empty() && !before[s2].r.spec_is_empty());
                        }
                    }
                    let i = e.idx.spec_val() as int;
                    assert(e.hash == fnv64(pre.str_bytes_at(i)));
                    let k = choose|k: int|
                        {
                            &&& 0 <= k < (before.len() as int) / 2
                            &&& slot as int == #[trigger] probe_slot(
                                before.len() as int,
                                e.hash,
                                k,
                            )
                            &&& forall|k2: int|
                                0 <= k2 < k ==> !before[#[trigger] probe_slot(
                                    before.len() as int,
                                    e.hash,
                                    k2,
                                )].r.spec_is_empty()
                        };
                    assert(pre.findable_in(new_map@, new_cap as int, i));
                    assert forall|j2: int|
                        0 <= j2 < j + 1 && !pre.slot_empty(j2) implies pre.findable_in(
                        new_map@,
                        new_cap as int,
                        pre.map@[j2].idx.spec_val() as int,
                    ) by {
                        if j2 < j {
                            let i2 = pre.map@[j2].idx.spec_val() as int;
                            let h2 = fnv64(pre.str_bytes_at(i2));
                            let k2 = choose|k2: int|
                                {
                                    &&& 0 <= k2 < (new_cap as int) / 2
                                    &&& !before[#[trigger] probe_slot(
                                        new_cap as int,
                                        h2,
                                        k2,
                                    )].r.spec_is_empty()
                                    &&& before[probe_slot(new_cap as int, h2, k2)].idx.spec_val()
                                        == i2
                                    &&& forall|k3: int|
                                        0 <= k3 < k2 ==> !before[#[trigger] probe_slot(
                                            new_cap as int,
                                            h2,
                                            k3,
                                        )].r.spec_is_empty()
                                };
                            assert(before[probe_slot(new_cap as int, h2, k2)].idx.spec_val() == i2);
                            assert(probe_slot(new_cap as int, h2, k2) != slot as int);
                            assert(pre.findable_in(new_map@, new_cap as int, i2));
                        } else {
                            assert(j2 == j as int);
                        }
                    }
                }
            }
            j += 1;
        }
        self.map = new_map;
        proof {
            assert(self.cap() == new_cap);
            assert(self.cap() % 8 == 0);
            assert forall|s2: int| 0 <= s2 < self.cap() && !self.slot_empty(s2) implies self.entry_ok(
                s2,
            ) by {
                let j2 = choose|j2: int|
                    0 <= j2 < cap && !pre.slot_empty(j2) && self.map@[s2] == pre.map@[j2];
                assert(pre.entry_ok(j2));
            }
            assert forall|i: int| 1 <= i < self.strings@.len() implies self.findable(i) by {
                assert(pre.findable(i));
                let h = fnv64(pre.str_bytes_at(i));
                let ki = choose|k: int|
                    {
                        &&& 0 <= k < cap / 2
                        &&& !pre.map@[#[trigger] probe_slot(cap as int, h, k)].r.spec_is_empty()
                        &&& pre.map@[probe_slot(cap as int, h, k)].idx.spec_val() == i
                        &&& forall|k2: int|
                            0 <= k2 < k ==> !pre.map@[#[trigger] probe_slot(
                                cap as int,
                                h,
                                k2,
                            )].r.spec_is_empty()
                    };
                let js = probe_slot(cap as int, h, ki);
                lemma_probe_slot_bound(cap as int, h, ki);
                assert(!pre.slot_empty(js) && pre.map@[js].idx.spec_val() == i);
                assert(pre.findable_in(self.map@, new_cap as int, i));
                assert(self.str_bytes_at(i) == pre.str_bytes_at(i));
                let kk = choose|kk: int|
                    {
                        &&& 0 <= kk < (new_cap as int) / 2
                        &&& !self.map@[#[trigger] probe_slot(
                            new_cap as int,
                            fnv64(pre.str_bytes_at(i)),
                            kk,
                        )].r.spec_is_empty()
                        &&& self.map@[probe_slot(
                            new_cap as int,
                            fnv64(pre.str_bytes_at(i)),
                            kk,
                        )].idx.spec_val() == i
                        &&& forall|k2: int|
                            0 <= k2 < kk ==> !self.map@[#[trigger] probe_slot(
                                new_cap as int,
                                fnv64(pre.str_bytes_at(i)),
                                k2,
                            )].r.spec_is_empty()
                    };
                assert(self.findable_in(self.map@, self.cap(), i));
            }
            assert(self.strings@.len() <= self.cap() / 8 * 5);
            assert forall|i: int| 0 <= i < self.strings@.len() implies #[trigger] self.str_bytes_at(
                i,
            ) == pre.str_bytes_at(i) by {}
            assert(self.refs_wf());
            assert(is_pow2(self.cap()));
            assert(self.cap() >= 1024);
            assert(self.cap() <= usize::MAX / 2);
            assert(forall|j2: int|
                0 <= j2 < self.cap() && !self.slot_empty(j2) ==> self.entry_ok(j2));
            assert(forall|j1: int, j2: int|
                0 <= j1 < self.cap() && 0 <= j2 < self.cap() && j1 != j2 && !self.slot_empty(j1)
                    && !self.slot_empty(j2) ==> self.map@[j1].idx.spec_val()
                    != self.map@[j2].idx.spec_val());
            assert(forall|i: int| 1 <= i < self.strings@.len() ==> self.findable(i));
            assert(forall|i: int|
                0 <= i < self.strings@.len() ==> valid_utf8(#[trigger] self.str_bytes_at(i)));
            assert(forall|i: int, j2: int|
                1 <= i < self.strings@.len() && 1 <= j2 < self.strings@.len() && i != j2
                    ==> self.str_bytes_at(i) != self.str_bytes_at(j2));
            assert(self.wf());
        }
    }
}

impl Pool {
    /// Intern `string`, returning its byte-range and dense-index handles.
    ///
    /// Interning is idempotent: a string already in the pool — the empty
    /// string always is — comes back with its existing handles and the pool
    /// unchanged. A new string is appended to the buffer, unless a size
    /// limit is hit (see [`Pool::put_overflows`]), in which case an error is
    /// returned and the pool is unchanged.
    #[verifier::rlimit(100)]
    pub fn put(&mut self, string: &str) -> (r: Result<(Ref, Idx), Error>)
        requires
            old(self).wf(),
        ensures
            final(self).wf(),
            put_spec(*old(self), *final(self), string@, r),
    {
        let ghost pre = *old(self);
        proof {
            pre.lemma_view_props();
        }
        let bytes = string.as_bytes();
        if bytes.len() >= u32::MAX as usize {
            proof {
                if pre.contains_str(string@) {
                    let i = pre.index_of(string@);
                    assert(encode_utf8(pre@[i]) == pre.str_bytes_at(i));
                    assert(pre.str_bytes_at(i).len() < u32::MAX);
                }
            }
            return Err(Error::new(String::from_str("String is too long for string_pool::Pool")));
        }
        if bytes.len() == 0 {
            proof {
                assert(encode_utf8(string@) =~= Seq::<u8>::empty());
                if string@.len() > 0 {
                    lemma_encode_nonempty(string@);
                }
                assert(string@ =~= Seq::<char>::empty());
                assert(pre@[0] == string@);
                pre.lemma_index_unique(string@, 0);
            }
            return Ok((Ref::default(), Idx::default()));
        }
        proof {
            if string@.len() == 0 {
                assert(encode_utf8(string@).len() == 0);
            }
        }
        let hash = fnv_hash(bytes);
        let cap = self.map.len();
        let half = cap / 2;
        let mut cur: usize = (hash % (cap as u64)) as usize;
        let mut k: usize = 0;
        let mut found = false;
        let mut found_slot: usize = 0;
        let ghost mut found_k: int = 0;
        proof {
            lemma_probe_slot_bound(cap as int, hash, 0);
            assert(tri(0) == 0);
            vstd::arithmetic::div_mod::lemma_mod_bound(hash as int, cap as int);
            vstd::arithmetic::div_mod::lemma_small_mod(
                ((hash as int) % (cap as int)) as nat,
                cap as nat,
            );
            assert(cur == probe_slot(cap as int, hash, 0));
        }
        while k < half && !found
            invariant
                *self == pre,
                pre.wf(),
                string@.len() > 0,
                bytes@ == encode_utf8(string@),
                hash == fnv64(bytes@),
                cap == pre.spec_cap(),
                half == cap / 2,
                0 <= k <= half,
                !found ==> cur == probe_slot(cap as int, hash, k as int) && cur < cap,
                found ==> {
                    &&& 0 <= found_k < half
                    &&& found_slot < cap
                    &&& found_slot as int == probe_slot(cap as int, hash, found_k)
                    &&& pre.slot_empty(found_slot as int)
                },
                forall|k2: int|
                    0 <= k2 < (if found {
                        found_k
                    } else {
                        k as int
                    }) ==> pre.probe_miss(hash, bytes@, k2),
            decreases half - k, (if found { 0int } else { 1int }),
        {
            let e = self.map[cur];
            if e.r.is_empty() {
                found = true;
                found_slot = cur;
                proof {
                    found_k = k as int;
                }
            } else {
                proof {
                    assert(!pre.slot_empty(cur as int));
                    assert(pre.entry_ok(cur as int));
                }
                if e.hash == hash {
                    let sl = vstd::slice::slice_subrange(
                        self.pool.as_slice(),
                        e.r.begin as usize,
                        e.r.end as usize,
                    );
                    proof {
                        assert(sl@ == pre.str_bytes_at(e.idx.spec_val() as int));
                    }
                    if bytes_eq(sl, bytes) {
                        proof {
                            let i = e.idx.spec_val() as int;
                            assert(pre.str_bytes_at(i) == encode_utf8(string@));
                            vstd::utf8::encode_utf8_decode_utf8(string@);
                            assert(pre@[i] == string@);
                            pre.lemma_index_unique(string@, i);
                            assert(e.r == pre.spec_ref_at(i));
                        }
                        return Ok((e.r, e.idx));
                    }
                    proof {
                        assert(pre.probe_miss(hash, bytes@, k as int));
                    }
                } else {
                    proof {
                        let i = e.idx.spec_val() as int;
                        if pre.str_bytes_at(i) == bytes@ {
                            assert(e.hash == fnv64(bytes@));
                        }
                        assert(pre.probe_miss(hash, bytes@, k as int));
                    }
                }
                k = k + 1;
                proof {
                    lemma_tri_step(k as int - 1);
                    vstd::arithmetic::div_mod::lemma_add_mod_noop(
                        (hash as int) % (cap as int) + tri(k as int - 1),
                        k as int,
                        cap as int,
                    );
                    vstd::arithmetic::div_mod::lemma_mod_bound(
                        (hash as int) % (cap as int) + tri(k as int - 1),
                        cap as int,
                    );
                    vstd::arithmetic::div_mod::lemma_small_mod(k as nat, cap as nat);
                    lemma_probe_slot_bound(cap as int, hash, k as int);
                }
                cur = (cur + k) % cap;
            }
        }
        proof {
            if found {
                pre.lemma_search_miss(string@, found_k);
            } else {
                pre.lemma_search_miss(string@, half as int);
            }
            assert(!pre.contains_str(string@));
        }
        if bytes.len() >= u32::MAX as usize - self.pool.len() || self.strings.len() >= u32::MAX
            as usize - 1 {
            return Err(Error::new(String::from_str("string_pool::Pool overflow")));
        }
        let map_idx: usize;
        if !found || self.strings.len() >= cap / 8 * 5 {
            if cap > usize::MAX / 4 {
                proof {
                    if found {
                        assert(pre@.len() >= pre.spec_cap() / 8 * 5);
                    } else {
                        assert forall|k2: int|
                            0 <= k2 < pre.spec_cap() / 2 implies !pre.slot_empty(
                            #[trigger] probe_slot(pre.spec_cap(), fnv64(encode_utf8(string@)), k2),
                        ) by {
                            assert(pre.probe_miss(hash, bytes@, k2));
                        }
                        assert(pre.probe_blocked(string@));
                    }
                    assert(pre.put_overflows(string@));
                }
                return Err(Error::new(String::from_str("string_pool::Pool overflow")));
            }
            proof {
                if !found {
                    if self.strings@.len() * 2 < cap {
                        assert forall|j1: int, j2: int|
                            0 <= j1 < self.map@.len() && 0 <= j2 < self.map@.len() && j1 != j2
                                && !self.map@[j1].r.spec_is_empty()
                                && !self.map@[j2].r.spec_is_empty() implies self.map@[j1].idx.spec_val()
                            != self.map@[j2].idx.spec_val() by {
                            assert(!self.slot_empty(j1) && !self.slot_empty(j2));
                        }
                        assert forall|j: int|
                            0 <= j < self.map@.len() && !(#[trigger] self.map@[j]).r.spec_is_empty() implies 1
                            <= self.map@[j].idx.spec_val() < self.strings@.len() by {
                            assert(!self.slot_empty(j));
                            assert(self.entry_ok(j));
                        }
                        lemma_probe_finds_empty(self.map@, hash, self.strings@.len() as int);
                        let ke = choose|ke: int|
                            0 <= ke < (self.map@.len() as int) / 2 && self.map@[#[trigger] probe_slot(
                                self.map@.len() as int,
                                hash,
                                ke,
                            )].r.spec_is_empty();
                        assert(pre.probe_miss(hash, bytes@, ke));
                        assert(false);
                    }
                } else {
                    assert(self.strings@.len() >= cap / 8 * 5);
                }
                assert(self.spec_strings_len() * 4 >= self.spec_cap());
            }
            self.grow_table();
            proof {
                assert(self@ == pre@);
                assert(self.strings@.len() - 1 < self.cap() / 2);
                assert forall|j1: int, j2: int|
                    0 <= j1 < self.map@.len() && 0 <= j2 < self.map@.len() && j1 != j2
                        && !self.map@[j1].r.spec_is_empty() && !self.map@[j2].r.spec_is_empty() implies self.map@[j1].idx.spec_val()
                    != self.map@[j2].idx.spec_val() by {
                    assert(!self.slot_empty(j1) && !self.slot_empty(j2));
                }
                assert forall|j: int|
                    0 <= j < self.map@.len() && !(#[trigger] self.map@[j]).r.spec_is_empty() implies 1
                    <= self.map@[j].idx.spec_val() < self.strings@.len() by {
                    assert(!self.slot_empty(j));
                    assert(self.entry_ok(j));
                }
                lemma_probe_finds_empty(self.map@, hash, self.strings@.len() as int);
            }
            map_idx = probe_first_empty(&self.map, hash);
        } else {
            map_idx = found_slot;
            proof {
                assert(exists|kf: int|
                    {
                        &&& 0 <= kf < self.cap() / 2
                        &&& map_idx as int == #[trigger] probe_slot(self.cap(), hash, kf)
                        &&& forall|k2: int|
                            0 <= k2 < kf ==> !self.map@[#[trigger] probe_slot(
                                self.cap(),
                                hash,
                                k2,
                            )].r.spec_is_empty()
                    }) by {
                    assert forall|k2: int| 0 <= k2 < found_k implies !self.map@[#[trigger] probe_slot(
                        self.cap(),
                        hash,
                        k2,
                    )].r.spec_is_empty() by {
                        assert(pre.probe_miss(hash, bytes@, k2));
                    }
                }
            }
        }
        // `self` is now `g`: same pool, strings and view as `pre`, with an
        // empty slot `map_idx` lying on the probe sequence for `hash`.
        let ghost g = *self;
        proof {
            assert(g.wf());
            assert(g.pool == pre.pool && g.strings == pre.strings);
            assert(g.slot_empty(map_idx as int));
            assert(g@.len() + 1 <= g.cap() / 8 * 5);
        }
        let begin = self.pool.len() as u32;
        let mut bi: usize = 0;
        let n = bytes.len();
        while bi < n
            invariant
                n == bytes@.len(),
                0 <= bi <= n,
                self.pool@ == g.pool@ + bytes@.take(bi as int),
                self.pool@.len() == g.pool@.len() + bi,
                self.map == g.map,
                self.strings == g.strings,
                g.pool@.len() + n < u32::MAX,
            decreases n - bi,
        {
            self.pool.push(bytes[bi]);
            proof {
                assert(self.pool@ =~= g.pool@ + bytes@.take(bi as int + 1));
            }
            bi = bi + 1;
        }
        proof {
            assert(bytes@.take(n as int) =~= bytes@);
            assert(self.pool@ == g.pool@ + bytes@);
        }
        let end = self.pool.len() as u32;
        let new_ref = Ref { begin, end };
        let new_idx = Idx(self.strings.len() as u32);
        self.strings.push(new_ref);
        self.map.set(map_idx, MapEntry { r: new_ref, hash, idx: new_idx });
        proof {
            let ni = g.strings@.len() as int;
            assert(self.strings@ == g.strings@.push(new_ref));
            assert forall|i: int| 0 <= i < ni implies #[trigger] self.str_bytes_at(i)
                == g.str_bytes_at(i) by {
                assert(self.strings@[i] == g.strings@[i]);
                assert(self.str_bytes_at(i) =~= g.str_bytes_at(i));
            }
            assert(self.str_bytes_at(ni) =~= bytes@);
            vstd::utf8::encode_utf8_valid_utf8(string@);
            vstd::utf8::encode_utf8_decode_utf8(string@);
            assert(decode_utf8(self.str_bytes_at(ni)) == string@);
            assert(self@ =~= g@.push(string@));
            // distinctness of the new byte string
            assert forall|i: int| 1 <= i < ni implies self.str_bytes_at(i) != bytes@ by {
                if g.str_bytes_at(i) == bytes@ {
                    vstd::utf8::decode_utf8_encode_utf8(g.str_bytes_at(i));
                    assert(g@[i] == string@);
                    assert(g.contains_str(string@));
                    assert(pre@ == g@);
                    assert(pre.contains_str(string@));
                }
            }
            // refs_wf
            assert(self.refs_wf());
            // map entries
            assert forall|j: int| 0 <= j < self.cap() && !self.slot_empty(j) implies self.entry_ok(
                j,
            ) by {
                if j == map_idx as int {
                } else {
                    assert(self.map@[j] == g.map@[j]);
                    assert(g.entry_ok(j));
                }
            }
            // injectivity
            assert forall|j1: int, j2: int|
                0 <= j1 < self.cap() && 0 <= j2 < self.cap() && j1 != j2 && !self.slot_empty(j1)
                    && !self.slot_empty(j2) implies self.map@[j1].idx.spec_val()
                != self.map@[j2].idx.spec_val() by {
                if j1 == map_idx as int {
                    assert(g.entry_ok(j2));
                } else if j2 == map_idx as int {
                    assert(g.entry_ok(j1));
                } else {
                    assert(!g.slot_empty(j1) && !g.slot_empty(j2));
                }
            }
            // findability
            assert forall|i: int| 1 <= i < self.strings@.len() implies self.findable(i) by {
                if i < ni {
                    assert(g.findable(i));
                    let h2 = fnv64(g.str_bytes_at(i));
                    let k2 = choose|k2: int|
                        {
                            &&& 0 <= k2 < g.cap() / 2
                            &&& !g.map@[#[trigger] probe_slot(g.cap(), h2, k2)].r.spec_is_empty()
                            &&& g.map@[probe_slot(g.cap(), h2, k2)].idx.spec_val() == i
                            &&& forall|k3: int|
                                0 <= k3 < k2 ==> !g.map@[#[trigger] probe_slot(
                                    g.cap(),
                                    h2,
                                    k3,
                                )].r.spec_is_empty()
                        };
                    assert(probe_slot(g.cap(), h2, k2) != map_idx as int);
                    assert(fnv64(self.str_bytes_at(i)) == h2);
                    assert(self.findable_in(self.map@, self.cap(), i));
                } else {
                    assert(i == ni);
                    assert(fnv64(self.str_bytes_at(ni)) == hash);
                    let kf = choose|kf: int|
                        {
                            &&& 0 <= kf < g.cap() / 2
                            &&& map_idx as int == #[trigger] probe_slot(g.cap(), hash, kf)
                            &&& forall|k2: int|
                                0 <= k2 < kf ==> !g.map@[#[trigger] probe_slot(
                                    g.cap(),
                                    hash,
                                    k2,
                                )].r.spec_is_empty()
                        };
                    assert(!self.map@[probe_slot(self.cap(), hash, kf)].r.spec_is_empty());
                    assert(self.map@[probe_slot(self.cap(), hash, kf)].idx.spec_val() == ni);
                    assert forall|k2: int| 0 <= k2 < kf implies !self.map@[#[trigger] probe_slot(
                        self.cap(),
                        hash,
                        k2,
                    )].r.spec_is_empty() by {
                        assert(!g.map@[probe_slot(g.cap(), hash, k2)].r.spec_is_empty());
                    }
                    assert(self.findable_in(self.map@, self.cap(), i));
                }
            }
            assert(self.wf());
            // the contract
            assert(pre@ == g@);
            assert(!pre.put_overflows(string@)) by {
                assert(encode_utf8(string@).len() < u32::MAX as int - pre.spec_pool_len());
                assert(pre@.len() < u32::MAX as int - 1);
                if (pre@.len() >= pre.spec_cap() / 8 * 5 || pre.probe_blocked(string@))
                    && pre.spec_cap() > usize::MAX as int / 4 {
                    assert(false);
                }
            }
            assert(self@ == pre@.push(string@));
            assert(new_idx.spec_val() == pre@.len());
            assert(new_ref == self.spec_ref_at(pre@.len() as int));
            assert(new_ref.spec_begin() == pre.spec_pool_len());
            assert(new_ref.spec_end() == pre.spec_pool_len() + encode_utf8(string@).len());
            assert forall|i: int| 0 <= i < pre@.len() implies #[trigger] self.spec_ref_at(i)
                == pre.spec_ref_at(i) by {}
            assert(self.spec_pool_len() == pre.spec_pool_len() + encode_utf8(string@).len());
        }
        Ok((new_ref, new_idx))
    }
}

/// Law: interning is idempotent. Interning the same string twice in a row
/// returns the same `Ref` and `Idx` both times, and the second call leaves
/// the pool exactly as the first left it.
pub proof fn lemma_put_idempotent(
    p0: Pool,
    p1: Pool,
    p2: Pool,
    s: Seq<char>,
    r1: Result<(Ref, Idx), Error>,
    r2: Result<(Ref, Idx), Error>,
)
    requires
        p0.wf(),
        p1.wf(),
        put_spec(p0, p1, s, r1),
        put_spec(p1, p2, s, r2),
        r1 is Ok,
    ensures
        p2 == p1,
        r2 is Ok,
        r1 matches Ok(h1) && r2 matches Ok(h2) && h1 == h2,
{
    p0.lemma_view_props();
    p1.lemma_view_props();
    if p0.contains_str(s) {
        let i = p0.index_of(s);
        p0.lemma_index_unique(s, i);
    } else {
        let i = p0@.len() as int;
        assert(p1@[i] == s);
        p1.lemma_index_unique(s, i);
    }
}

} // verus!
