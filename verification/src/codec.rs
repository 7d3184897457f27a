use vstd::prelude::*;
use vstd::string::StringExecFns;
use vstd::string::StrSliceExecFns;

verus! {

/// Relies on `char::from_u32`: yields the character with exactly the
/// given scalar value, and nothing for surrogates or values beyond
/// the Unicode range.
pub assume_specification[ char::from_u32 ](u: u32) -> (r: Option<char>)
    ensures
        (r is Some) == (u < 0xD800 || (0xE000 <= u && u <= 0x10FFFF)),
        (r matches Some(c) ==> c as u32 == u && c == (u as char)),
;

/// The scalar is a valid Unicode code point.
pub open spec fn valid_scalar(u: u32) -> bool {
    u < 0xD800 || (0xE000 <= u && u <= 0x10FFFF)
}

/// One byte per boolean.
pub open spec fn enc_bool(b: bool) -> Seq<u8> {
    seq![if b { 1u8 } else { 0u8 }]
}

pub open spec fn dec_bool(s: Seq<u8>, i: int) -> Option<(bool, int)> {
    if 0 <= i < s.len() && (s[i] == 0 || s[i] == 1) {
        Some((s[i] == 1, i + 1))
    } else {
        None
    }
}

pub proof fn lemma_dec_bool(b: bool, s: Seq<u8>, i: int)
    requires
        0 <= i,
        i + 1 <= s.len(),
        s.subrange(i, i + 1) == enc_bool(b),
    ensures
        dec_bool(s, i) == Some((b, i + 1)),
{
    assert(s[i] == enc_bool(b)[0]);
}

/// Four little-endian bytes per 32-bit value.
#[verifier::opaque]
pub open spec fn enc_u32(u: u32) -> Seq<u8> {
    seq![
        (u % 256) as u8,
        ((u / 256) % 256) as u8,
        ((u / 65536) % 256) as u8,
        ((u / 16777216) % 256) as u8,
    ]
}

#[verifier::opaque]
pub open spec fn dec_u32(s: Seq<u8>, i: int) -> Option<(u32, int)> {
    if 0 <= i && i + 4 <= s.len() {
        Some(
            (
                (s[i] + 256 * (s[i + 1] as int) + 65536 * (s[i + 2] as int) + 16777216 * (s[i + 3] as int)) as u32,
                i + 4,
            ),
        )
    } else {
        None
    }
}

/// Every 32-bit encoding takes four bytes.
pub broadcast proof fn lemma_enc_u32_len(u: u32)
    ensures
        (#[trigger] enc_u32(u)).len() == 4,
{
    reveal(enc_u32);
}

/// Decoding from anywhere either fails or consumes four bytes within
/// bounds.
pub broadcast proof fn lemma_dec_u32_shape(s: Seq<u8>, i: int)
    ensures
        (#[trigger] dec_u32(s, i)) matches Some(p) ==> p.1 == i + 4 && 0 <= i && i + 4 <= s.len(),
{
    reveal(dec_u32);
}

pub proof fn lemma_dec_u32(u: u32, s: Seq<u8>, i: int)
    requires
        0 <= i,
        i + 4 <= s.len(),
        s.subrange(i, i + 4) == enc_u32(u),
    ensures
        dec_u32(s, i) == Some((u, i + 4)),
{
    reveal(enc_u32);
    reveal(dec_u32);
    assert(s[i] == enc_u32(u)[0]);
    assert(s[i + 1] == enc_u32(u)[1]);
    assert(s[i + 2] == enc_u32(u)[2]);
    assert(s[i + 3] == enc_u32(u)[3]);
    assert(u % 256 + 256 * ((u / 256) % 256) + 65536 * ((u / 65536) % 256) + 16777216 * ((u
        / 16777216) % 256) == u) by (nonlinear_arith);
}

/// Eight little-endian bytes per 64-bit value (used for lengths).
pub open spec fn enc_u64(u: u64) -> Seq<u8> {
    enc_u32((u % 0x100000000) as u32) + enc_u32((u / 0x100000000) as u32)
}

pub open spec fn dec_u64(s: Seq<u8>, i: int) -> Option<(u64, int)> {
    match dec_u32(s, i) {
        Some((lo, j)) => match dec_u32(s, j) {
            Some((hi, k)) => Some(((lo + 0x100000000 * (hi as int)) as u64, k)),
            None => None,
        },
        None => None,
    }
}

pub proof fn lemma_dec_u64(u: u64, s: Seq<u8>, i: int)
    requires
        0 <= i,
        i + 8 <= s.len(),
        s.subrange(i, i + 8) == enc_u64(u),
    ensures
        dec_u64(s, i) == Some((u, i + 8)),
{
    broadcast use lemma_enc_u32_len, lemma_dec_u32_shape;
    let lo = (u % 0x100000000) as u32;
    let hi = (u / 0x100000000) as u32;
    assert(enc_u32(lo).len() == 4 && enc_u32(hi).len() == 4);
    assert forall|k: int| 0 <= k < 8 implies s[i + k] == (enc_u32(lo) + enc_u32(hi))[k] by {
        assert(s.subrange(i, i + 8)[k] == s[i + k]);
    }
    assert forall|k: int| 0 <= k < 4 implies s.subrange(i + 4, i + 8)[k] == enc_u32(hi)[k] by {
        assert(s[i + 4 + k] == (enc_u32(lo) + enc_u32(hi))[4 + k]);
        assert((enc_u32(lo) + enc_u32(hi))[4 + k] == enc_u32(hi)[k]);
    }
    assert(s.subrange(i, i + 4) =~= enc_u32(lo));
    assert(s.subrange(i + 4, i + 8) =~= enc_u32(hi));
    lemma_dec_u32(lo, s, i);
    lemma_dec_u32(hi, s, i + 4);
    assert(lo + 0x100000000 * (hi as int) == u) by (nonlinear_arith)
        requires lo == u % 0x100000000, hi == u / 0x100000000;
}

/// A signed 32-bit value, shifted into the unsigned range.
pub open spec fn enc_i32(v: i32) -> Seq<u8> {
    enc_u32((v + 0x80000000) as u32)
}

pub open spec fn dec_i32(s: Seq<u8>, i: int) -> Option<(i32, int)> {
    match dec_u32(s, i) {
        Some((u, j)) => Some((((u as int) - 0x80000000) as i32, j)),
        None => None,
    }
}

pub proof fn lemma_dec_i32(v: i32, s: Seq<u8>, i: int)
    requires
        0 <= i,
        i + 4 <= s.len(),
        s.subrange(i, i + 4) == enc_i32(v),
    ensures
        dec_i32(s, i) == Some((v, i + 4)),
{
    broadcast use lemma_enc_u32_len, lemma_dec_u32_shape;
    lemma_dec_u32((v + 0x80000000) as u32, s, i);
}

/// A character as its scalar value.
pub open spec fn enc_char(c: char) -> Seq<u8> {
    enc_u32(c as u32)
}

pub open spec fn dec_char(s: Seq<u8>, i: int) -> Option<(char, int)> {
    match dec_u32(s, i) {
        Some((u, j)) => if valid_scalar(u) {
            Some(((u as char), j))
        } else {
            None
        },
        None => None,
    }
}

pub proof fn lemma_dec_char(c: char, s: Seq<u8>, i: int)
    requires
        0 <= i,
        i + 4 <= s.len(),
        s.subrange(i, i + 4) == enc_char(c),
    ensures
        dec_char(s, i) == Some((c, i + 4)),
{
    broadcast use lemma_enc_u32_len, lemma_dec_u32_shape;
    lemma_dec_u32(c as u32, s, i);
    assert(valid_scalar(c as u32));
    assert((c as u32) as char == c);
}

/// A byte run that begins with `a + b` splits into a run of `a` and a
/// run of `b`.
pub proof fn lemma_split_prefix(s: Seq<u8>, i: int, a: Seq<u8>, b: Seq<u8>)
    requires
        0 <= i,
        i + a.len() + b.len() <= s.len(),
        s.subrange(i, i + a.len() + b.len()) == a + b,
    ensures
        s.subrange(i, i + a.len()) == a,
        s.subrange(i + a.len(), i + a.len() + b.len()) == b,
{
    assert forall|k: int| 0 <= k < a.len() + b.len() implies s[i + k] == (a + b)[k] by {
        assert(s.subrange(i, i + a.len() + b.len())[k] == s[i + k]);
    }
    assert(s.subrange(i, i + a.len()) =~= a);
    assert forall|k: int|
        0 <= k < b.len() implies s.subrange(i + a.len(), i + a.len() + b.len())[k] == b[k] by {
        assert(s[i + a.len() + k] == (a + b)[a.len() + k]);
        assert((a + b)[a.len() + k] == b[k]);
    }
    assert(s.subrange(i + a.len(), i + a.len() + b.len()) =~= b);
}

/// The encodings of a sequence of values, one after another.
pub open spec fn enc_items<A>(vals: Seq<A>, enc: spec_fn(A) -> Seq<u8>) -> Seq<u8>
    decreases vals.len(),
{
    if vals.len() == 0 {
        Seq::empty()
    } else {
        enc(vals.first()) + enc_items(vals.drop_first(), enc)
    }
}

/// Decodes exactly `n` values in a row.
pub open spec fn dec_items<A>(s: Seq<u8>, i: int, n: int, dec: spec_fn(Seq<u8>, int) -> Option<(A, int)>) -> Option<(Seq<A>, int)>
    decreases n,
{
    if n <= 0 {
        Some((Seq::empty(), i))
    } else {
        match dec(s, i) {
            Some((v, j)) => match dec_items(s, j, n - 1, dec) {
                Some((vs, k)) => Some((seq![v] + vs, k)),
                None => None,
            },
            None => None,
        }
    }
}

/// An element decoder undoes its encoder wherever the encoding of a
/// valid value sits.
pub open spec fn decodes_on<A>(valid: spec_fn(A) -> bool, enc: spec_fn(A) -> Seq<u8>, dec: spec_fn(Seq<u8>, int) -> Option<(A, int)>) -> bool {
    forall|v: A, s2: Seq<u8>, i2: int|
        valid(v) && 0 <= i2 && i2 + enc(v).len() <= s2.len() && s2.subrange(i2, i2 + enc(v).len())
            == enc(v) ==> #[trigger] dec(s2, i2) == Some((v, i2 + (#[trigger] enc(v)).len()))
}

/// Decoding `n` valid values undoes encoding them in a row.
pub proof fn lemma_dec_items<A>(vals: Seq<A>, valid: spec_fn(A) -> bool, enc: spec_fn(A) -> Seq<u8>, dec: spec_fn(Seq<u8>, int) -> Option<(A, int)>, s: Seq<u8>, i: int)
    requires
        decodes_on(valid, enc, dec),
        forall|k: int| 0 <= k < vals.len() ==> valid(#[trigger] vals[k]),
        0 <= i,
        i + enc_items(vals, enc).len() <= s.len(),
        s.subrange(i, i + enc_items(vals, enc).len()) == enc_items(vals, enc),
    ensures
        dec_items(s, i, vals.len() as int, dec) == Some((vals, i + enc_items(vals, enc).len())),
    decreases vals.len(),
{
    if vals.len() == 0 {
        assert(dec_items(s, i, 0, dec) == Some((Seq::<A>::empty(), i)));
        assert(vals =~= Seq::<A>::empty());
    } else {
        let v0 = vals.first();
        let rest = vals.drop_first();
        lemma_split_prefix(s, i, enc(v0), enc_items(rest, enc));
        assert(valid(vals[0]));
        assert(dec(s, i) == Some((v0, i + enc(v0).len())));
        assert forall|k: int| 0 <= k < rest.len() implies valid(#[trigger] rest[k]) by {
            assert(rest[k] == vals[k + 1]);
        }
        lemma_dec_items(rest, valid, enc, dec, s, i + enc(v0).len());
        assert(seq![v0] + rest =~= vals);
    }
}

/// A fixed-stride decoder that succeeds `n` times lands exactly
/// `k * n` bytes further, within bounds.
pub proof fn lemma_dec_items_stride<A>(s: Seq<u8>, i: int, n: int, dec: spec_fn(Seq<u8>, int) -> Option<(A, int)>, k: int)
    requires
        n >= 0,
        k >= 0,
        forall|i2: int| (#[trigger] dec(s, i2)) matches Some(p) ==> p.1 == i2 + k && i2 + k <= s.len(),
        dec_items(s, i, n, dec) is Some,
    ensures
        dec_items(s, i, n, dec).unwrap().1 == i + k * n,
        n > 0 ==> i + k * n <= s.len(),
    decreases n,
{
    if n > 0 {
        let p = dec(s, i).unwrap();
        lemma_dec_items_stride(s, p.1, n - 1, dec, k);
        assert(k * n == k * (n - 1) + k) by (nonlinear_arith);
    } else {
        assert(k * n == 0) by (nonlinear_arith)
            requires n == 0;
    }
}

/// A string as its length followed by its characters.
pub open spec fn enc_str(cs: Seq<char>) -> Seq<u8> {
    enc_u64(cs.len() as u64) + enc_items(cs, |c: char| enc_char(c))
}

pub open spec fn dec_str(s: Seq<u8>, i: int) -> Option<(Seq<char>, int)> {
    match dec_u64(s, i) {
        Some((n, j)) => dec_items(s, j, n as int, |s2: Seq<u8>, i2: int| dec_char(s2, i2)),
        None => None,
    }
}

pub proof fn lemma_dec_str(cs: Seq<char>, s: Seq<u8>, i: int)
    requires
        0 <= i,
        cs.len() <= u64::MAX,
        i + enc_str(cs).len() <= s.len(),
        s.subrange(i, i + enc_str(cs).len()) == enc_str(cs),
    ensures
        dec_str(s, i) == Some((cs, i + enc_str(cs).len())),
{
    broadcast use lemma_enc_u32_len, lemma_dec_u32_shape;
    let va = |c: char| true;
    let ec = |c: char| enc_char(c);
    let dc = |s2: Seq<u8>, i2: int| dec_char(s2, i2);
    lemma_split_prefix(s, i, enc_u64(cs.len() as u64), enc_items(cs, ec));
    lemma_dec_u64(cs.len() as u64, s, i);
    assert(decodes_on(va, ec, dc)) by {
        assert forall|v: char, s2: Seq<u8>, i2: int|
            va(v) && 0 <= i2 && i2 + ec(v).len() <= s2.len() && s2.subrange(i2, i2 + ec(v).len())
                == ec(v) implies #[trigger] dc(s2, i2) == Some((v, i2 + (#[trigger] ec(v)).len())) by {
            lemma_dec_char(v, s2, i2);
        }
    }
    lemma_dec_items(cs, va, ec, dc, s, i + 8);
}

/// An optional value: a presence byte, then the payload.
pub open spec fn enc_opt<A>(o: Option<A>, enc: spec_fn(A) -> Seq<u8>) -> Seq<u8> {
    match o {
        None => seq![0u8],
        Some(v) => seq![1u8] + enc(v),
    }
}

pub open spec fn dec_opt<A>(s: Seq<u8>, i: int, dec: spec_fn(Seq<u8>, int) -> Option<(A, int)>) -> Option<(Option<A>, int)> {
    if 0 <= i < s.len() {
        if s[i] == 0 {
            Some((None, i + 1))
        } else if s[i] == 1 {
            match dec(s, i + 1) {
                Some((v, j)) => Some((Some(v), j)),
                None => None,
            }
        } else {
            None
        }
    } else {
        None
    }
}

pub proof fn lemma_dec_opt<A>(o: Option<A>, valid: spec_fn(A) -> bool, enc: spec_fn(A) -> Seq<u8>, dec: spec_fn(Seq<u8>, int) -> Option<(A, int)>, s: Seq<u8>, i: int)
    requires
        decodes_on(valid, enc, dec),
        (o matches Some(v) ==> valid(v)),
        0 <= i,
        i + enc_opt(o, enc).len() <= s.len(),
        s.subrange(i, i + enc_opt(o, enc).len()) == enc_opt(o, enc),
    ensures
        dec_opt(s, i, dec) == Some((o, i + enc_opt(o, enc).len())),
{
    match o {
        None => {
            assert(s[i] == enc_opt(o, enc)[0]);
        },
        Some(v) => {
            lemma_split_prefix(s, i, seq![1u8], enc(v));
            assert(s.subrange(i, i + 1)[0] == s[i]);
            assert(s[i] == 1);
            assert(dec(s, i + 1) == Some((v, i + 1 + enc(v).len())));
        },
    }
}

/// Colors are three raw bytes.
pub open spec fn enc_color(c: crate::object::Color) -> Seq<u8> {
    seq![c.r, c.g, c.b]
}

pub open spec fn dec_color(s: Seq<u8>, i: int) -> Option<(crate::object::Color, int)> {
    if 0 <= i && i + 3 <= s.len() {
        Some((crate::object::Color { r: s[i], g: s[i + 1], b: s[i + 2] }, i + 3))
    } else {
        None
    }
}

pub proof fn lemma_dec_color(c: crate::object::Color, s: Seq<u8>, i: int)
    requires
        0 <= i,
        i + 3 <= s.len(),
        s.subrange(i, i + 3) == enc_color(c),
    ensures
        dec_color(s, i) == Some((c, i + 3)),
{
    assert(s[i] == enc_color(c)[0]);
    assert(s[i + 1] == enc_color(c)[1]);
    assert(s[i + 2] == enc_color(c)[2]);
}

/// Tiles are three flag bytes.
pub open spec fn enc_tile(t: crate::tile::Tile) -> Seq<u8> {
    enc_bool(t.blocked) + (enc_bool(t.block_sight) + enc_bool(t.explored))
}

pub open spec fn dec_tile(s: Seq<u8>, i: int) -> Option<(crate::tile::Tile, int)> {
    match dec_bool(s, i) {
        Some((blocked, j)) => match dec_bool(s, j) {
            Some((block_sight, k)) => match dec_bool(s, k) {
                Some((explored, l)) => Some(
                    (crate::tile::Tile { blocked, block_sight, explored }, l),
                ),
                None => None,
            },
            None => None,
        },
        None => None,
    }
}

pub proof fn lemma_dec_tile(t: crate::tile::Tile, s: Seq<u8>, i: int)
    requires
        0 <= i,
        i + 3 <= s.len(),
        s.subrange(i, i + 3) == enc_tile(t),
    ensures
        dec_tile(s, i) == Some((t, i + 3)),
{
    lemma_split_prefix(s, i, enc_bool(t.blocked), enc_bool(t.block_sight) + enc_bool(t.explored));
    lemma_split_prefix(s, i + 1, enc_bool(t.block_sight), enc_bool(t.explored));
    lemma_dec_bool(t.blocked, s, i);
    lemma_dec_bool(t.block_sight, s, i + 1);
    lemma_dec_bool(t.explored, s, i + 2);
}

/// Equipment slots as a tag byte.
pub open spec fn enc_slot(sl: crate::object::Slot) -> Seq<u8> {
    match sl {
        crate::object::Slot::LeftHand => seq![0u8],
        crate::object::Slot::RightHand => seq![1u8],
        crate::object::Slot::Head => seq![2u8],
    }
}

pub open spec fn dec_slot(s: Seq<u8>, i: int) -> Option<(crate::object::Slot, int)> {
    if 0 <= i < s.len() {
        if s[i] == 0 {
            Some((crate::object::Slot::LeftHand, i + 1))
        } else if s[i] == 1 {
            Some((crate::object::Slot::RightHand, i + 1))
        } else if s[i] == 2 {
            Some((crate::object::Slot::Head, i + 1))
        } else {
            None
        }
    } else {
        None
    }
}

pub proof fn lemma_dec_slot(sl: crate::object::Slot, s: Seq<u8>, i: int)
    requires
        0 <= i,
        i + 1 <= s.len(),
        s.subrange(i, i + 1) == enc_slot(sl),
    ensures
        dec_slot(s, i) == Some((sl, i + 1)),
{
    assert(s[i] == enc_slot(sl)[0]);
}

/// Item kinds as a tag byte.
pub open spec fn enc_item(it: crate::object::Item) -> Seq<u8> {
    match it {
        crate::object::Item::Heal => seq![0u8],
        crate::object::Item::Lightning => seq![1u8],
        crate::object::Item::Confuse => seq![2u8],
        crate::object::Item::Fireball => seq![3u8],
        crate::object::Item::Equipment => seq![4u8],
    }
}

pub open spec fn dec_item(s: Seq<u8>, i: int) -> Option<(crate::object::Item, int)> {
    if 0 <= i < s.len() {
        if s[i] == 0 {
            Some((crate::object::Item::Heal, i + 1))
        } else if s[i] == 1 {
            Some((crate::object::Item::Lightning, i + 1))
        } else if s[i] == 2 {
            Some((crate::object::Item::Confuse, i + 1))
        } else if s[i] == 3 {
            Some((crate::object::Item::Fireball, i + 1))
        } else if s[i] == 4 {
            Some((crate::object::Item::Equipment, i + 1))
        } else {
            None
        }
    } else {
        None
    }
}

pub proof fn lemma_dec_item(it: crate::object::Item, s: Seq<u8>, i: int)
    requires
        0 <= i,
        i + 1 <= s.len(),
        s.subrange(i, i + 1) == enc_item(it),
    ensures
        dec_item(s, i) == Some((it, i + 1)),
{
    assert(s[i] == enc_item(it)[0]);
}

/// Death callbacks as a tag byte.
pub open spec fn enc_dcb(d: crate::object::DeathCallback) -> Seq<u8> {
    match d {
        crate::object::DeathCallback::Player => seq![0u8],
        crate::object::DeathCallback::Monster => seq![1u8],
    }
}

pub open spec fn dec_dcb(s: Seq<u8>, i: int) -> Option<(crate::object::DeathCallback, int)> {
    if 0 <= i < s.len() {
        if s[i] == 0 {
            Some((crate::object::DeathCallback::Player, i + 1))
        } else if s[i] == 1 {
            Some((crate::object::DeathCallback::Monster, i + 1))
        } else {
            None
        }
    } else {
        None
    }
}

pub proof fn lemma_dec_dcb(d: crate::object::DeathCallback, s: Seq<u8>, i: int)
    requires
        0 <= i,
        i + 1 <= s.len(),
        s.subrange(i, i + 1) == enc_dcb(d),
    ensures
        dec_dcb(s, i) == Some((d, i + 1)),
{
    assert(s[i] == enc_dcb(d)[0]);
}

/// Combat stats, field by field.
pub open spec fn enc_fighter(f: crate::object::Fighter) -> Seq<u8> {
    enc_i32(f.max_hp) + (enc_i32(f.hp) + (enc_i32(f.defense) + (enc_i32(f.base_power) + (enc_dcb(
        f.on_death,
    ) + enc_i32(f.xp)))))
}

pub open spec fn dec_fighter(s: Seq<u8>, i: int) -> Option<(crate::object::Fighter, int)> {
    match dec_i32(s, i) {
        Some((max_hp, j1)) => match dec_i32(s, j1) {
            Some((hp, j2)) => match dec_i32(s, j2) {
                Some((defense, j3)) => match dec_i32(s, j3) {
                    Some((base_power, j4)) => match dec_dcb(s, j4) {
                        Some((on_death, j5)) => match dec_i32(s, j5) {
                            Some((xp, j6)) => Some(
                                (
                                    crate::object::Fighter {
                                        max_hp,
                                        hp,
                                        defense,
                                        base_power,
                                        on_death,
                                        xp,
                                    },
                                    j6,
                                ),
                            ),
                            None => None,
                        },
                        None => None,
                    },
                    None => None,
                },
                None => None,
            },
            None => None,
        },
        None => None,
    }
}

#[verifier::rlimit(100)]
#[verifier::spinoff_prover]
pub proof fn lemma_dec_fighter(f: crate::object::Fighter, s: Seq<u8>, i: int)
    requires
        0 <= i,
        i + enc_fighter(f).len() <= s.len(),
        s.subrange(i, i + enc_fighter(f).len()) == enc_fighter(f),
    ensures
        enc_fighter(f).len() == 21,
        dec_fighter(s, i) == Some((f, i + 21)),
{
    broadcast use lemma_enc_u32_len, lemma_dec_u32_shape;
    lemma_split_prefix(
        s,
        i,
        enc_i32(f.max_hp),
        enc_i32(f.hp) + (enc_i32(f.defense) + (enc_i32(f.base_power) + (enc_dcb(f.on_death)
            + enc_i32(f.xp)))),
    );
    lemma_split_prefix(
        s,
        i + 4,
        enc_i32(f.hp),
        enc_i32(f.defense) + (enc_i32(f.base_power) + (enc_dcb(f.on_death) + enc_i32(f.xp))),
    );
    lemma_split_prefix(
        s,
        i + 8,
        enc_i32(f.defense),
        enc_i32(f.base_power) + (enc_dcb(f.on_death) + enc_i32(f.xp)),
    );
    lemma_split_prefix(s, i + 12, enc_i32(f.base_power), enc_dcb(f.on_death) + enc_i32(f.xp));
    lemma_split_prefix(s, i + 16, enc_dcb(f.on_death), enc_i32(f.xp));
    lemma_dec_i32(f.max_hp, s, i);
    lemma_dec_i32(f.hp, s, i + 4);
    lemma_dec_i32(f.defense, s, i + 8);
    lemma_dec_i32(f.base_power, s, i + 12);
    lemma_dec_dcb(f.on_death, s, i + 16);
    lemma_dec_i32(f.xp, s, i + 17);
}

/// Equipment components, field by field.
pub open spec fn enc_equipment(e: crate::object::Equipment) -> Seq<u8> {
    enc_slot(e.slot) + (enc_bool(e.equipped) + enc_i32(e.power_bonus))
}

pub open spec fn dec_equipment(s: Seq<u8>, i: int) -> Option<(crate::object::Equipment, int)> {
    match dec_slot(s, i) {
        Some((slot, j1)) => match dec_bool(s, j1) {
            Some((equipped, j2)) => match dec_i32(s, j2) {
                Some((power_bonus, j3)) => Some(
                    (crate::object::Equipment { slot, equipped, power_bonus }, j3),
                ),
                None => None,
            },
            None => None,
        },
        None => None,
    }
}

pub proof fn lemma_dec_equipment(e: crate::object::Equipment, s: Seq<u8>, i: int)
    requires
        0 <= i,
        i + enc_equipment(e).len() <= s.len(),
        s.subrange(i, i + enc_equipment(e).len()) == enc_equipment(e),
    ensures
        enc_equipment(e).len() == 6,
        dec_equipment(s, i) == Some((e, i + 6)),
{
    broadcast use lemma_enc_u32_len, lemma_dec_u32_shape;
    lemma_split_prefix(s, i, enc_slot(e.slot), enc_bool(e.equipped) + enc_i32(e.power_bonus));
    lemma_split_prefix(s, i + 1, enc_bool(e.equipped), enc_i32(e.power_bonus));
    lemma_dec_slot(e.slot, s, i);
    lemma_dec_bool(e.equipped, s, i + 1);
    lemma_dec_i32(e.power_bonus, s, i + 2);
}

/// An AI state as its chain of confusion counters, outermost first;
/// the chain always bottoms out in the basic state.
pub open spec fn ai_view(a: crate::object::Ai) -> Seq<i32>
    decreases a,
{
    match a {
        crate::object::Ai::Basic => Seq::empty(),
        crate::object::Ai::Confused { previous_ai, num_turns } => seq![num_turns] + ai_view(
            *previous_ai,
        ),
    }
}

pub open spec fn enc_ai(ch: Seq<i32>) -> Seq<u8> {
    enc_u64(ch.len() as u64) + enc_items(ch, |v: i32| enc_i32(v))
}

pub open spec fn dec_ai(s: Seq<u8>, i: int) -> Option<(Seq<i32>, int)> {
    match dec_u64(s, i) {
        Some((n, j)) => dec_items(s, j, n as int, |s2: Seq<u8>, i2: int| dec_i32(s2, i2)),
        None => None,
    }
}

pub proof fn lemma_dec_ai(ch: Seq<i32>, s: Seq<u8>, i: int)
    requires
        0 <= i,
        ch.len() <= u64::MAX,
        i + enc_ai(ch).len() <= s.len(),
        s.subrange(i, i + enc_ai(ch).len()) == enc_ai(ch),
    ensures
        dec_ai(s, i) == Some((ch, i + enc_ai(ch).len())),
{
    broadcast use lemma_enc_u32_len, lemma_dec_u32_shape;
    let va = |v: i32| true;
    let ec = |v: i32| enc_i32(v);
    let dc = |s2: Seq<u8>, i2: int| dec_i32(s2, i2);
    lemma_split_prefix(s, i, enc_u64(ch.len() as u64), enc_items(ch, ec));
    lemma_dec_u64(ch.len() as u64, s, i);
    assert(decodes_on(va, ec, dc)) by {
        assert forall|v: i32, s2: Seq<u8>, i2: int|
            va(v) && 0 <= i2 && i2 + ec(v).len() <= s2.len() && s2.subrange(i2, i2 + ec(v).len())
                == ec(v) implies #[trigger] dc(s2, i2) == Some((v, i2 + (#[trigger] ec(v)).len())) by {
            lemma_dec_i32(v, s2, i2);
        }
    }
    lemma_dec_items(ch, va, ec, dc, s, i + 8);
}

/// The mathematical image of an entity: plain values, with the
/// recursive AI state flattened into its chain of counters.
pub struct ObjM {
    pub x: i32,
    pub y: i32,
    pub glyph: char,
    pub color: crate::object::Color,
    pub name: Seq<char>,
    pub blocks: bool,
    pub alive: bool,
    pub fighter: Option<crate::object::Fighter>,
    pub ai: Option<Seq<i32>>,
    pub item: Option<crate::object::Item>,
    pub always_visible: bool,
    pub level: i32,
    pub equipment: Option<crate::object::Equipment>,
}

pub open spec fn obj_view(o: crate::object::Object) -> ObjM {
    ObjM {
        x: o.x,
        y: o.y,
        glyph: o.glyph,
        color: o.color,
        name: o.name@,
        blocks: o.blocks,
        alive: o.alive,
        fighter: o.fighter,
        ai: match o.ai {
            Some(a) => Some(ai_view(a)),
            None => None,
        },
        item: o.item,
        always_visible: o.always_visible,
        level: o.level,
        equipment: o.equipment,
    }
}

/// The model's sequences fit the length fields of the encoding.
pub open spec fn objm_wf(m: ObjM) -> bool {
    &&& m.name.len() <= u64::MAX
    &&& (m.ai matches Some(c) ==> c.len() <= u64::MAX)
}

pub open spec fn enc_obj_head(m: ObjM) -> Seq<u8> {
    enc_i32(m.x) + (enc_i32(m.y) + (enc_char(m.glyph) + (enc_color(m.color) + enc_str(m.name))))
}

pub open spec fn enc_obj_tail(m: ObjM) -> Seq<u8> {
    enc_bool(m.blocks) + (enc_bool(m.alive) + (enc_opt(m.fighter, |f| enc_fighter(f)) + (enc_opt(
        m.ai,
        |c| enc_ai(c),
    ) + (enc_opt(m.item, |it| enc_item(it)) + (enc_bool(m.always_visible) + (enc_i32(m.level)
        + enc_opt(m.equipment, |e| enc_equipment(e))))))))
}

pub open spec fn enc_obj(m: ObjM) -> Seq<u8> {
    enc_obj_head(m) + enc_obj_tail(m)
}

pub open spec fn dec_obj(s: Seq<u8>, i: int) -> Option<(ObjM, int)> {
    match dec_i32(s, i) {
        Some((x, j1)) => match dec_i32(s, j1) {
            Some((y, j2)) => match dec_char(s, j2) {
                Some((glyph, j3)) => match dec_color(s, j3) {
                    Some((color, j4)) => match dec_str(s, j4) {
                        Some((name, j5)) => match dec_bool(s, j5) {
                            Some((blocks, j6)) => match dec_bool(s, j6) {
                                Some((alive, j7)) => match dec_opt(
                                    s,
                                    j7,
                                    |s2: Seq<u8>, i2: int| dec_fighter(s2, i2),
                                ) {
                                    Some((fighter, j8)) => match dec_opt(
                                        s,
                                        j8,
                                        |s2: Seq<u8>, i2: int| dec_ai(s2, i2),
                                    ) {
                                        Some((ai, j9)) => match dec_opt(
                                            s,
                                            j9,
                                            |s2: Seq<u8>, i2: int| dec_item(s2, i2),
                                        ) {
                                            Some((item, j10)) => match dec_bool(s, j10) {
                                                Some((always_visible, j11)) => match dec_i32(
                                                    s,
                                                    j11,
                                                ) {
                                                    Some((level, j12)) => match dec_opt(
                                                        s,
                                                        j12,
                                                        |s2: Seq<u8>, i2: int| dec_equipment(s2, i2),
                                                    ) {
                                                        Some((equipment, j13)) => Some(
                                                            (
                                                                ObjM {
                                                                    x,
                                                                    y,
                                                                    glyph,
                                                                    color,
                                                                    name,
                                                                    blocks,
                                                                    alive,
                                                                    fighter,
                                                                    ai,
                                                                    item,
                                                                    always_visible,
                                                                    level,
                                                                    equipment,
                                                                },
                                                                j13,
                                                            ),
                                                        ),
                                                        None => None,
                                                    },
                                                    None => None,
                                                },
                                                None => None,
                                            },
                                            None => None,
                                        },
                                        None => None,
                                    },
                                    None => None,
                                },
                                None => None,
                            },
                            None => None,
                        },
                        None => None,
                    },
                    None => None,
                },
                None => None,
            },
            None => None,
        },
        None => None,
    }
}

/// Every element encoding has at least `k` bytes, so the total grows
/// at least linearly; used to rule out impossible lengths.
pub proof fn lemma_enc_items_len<A>(vals: Seq<A>, enc: spec_fn(A) -> Seq<u8>, k: int)
    requires
        forall|v: A| (#[trigger] enc(v)).len() >= k,
        k >= 0,
    ensures
        enc_items(vals, enc).len() >= k * vals.len(),
    decreases vals.len(),
{
    if vals.len() == 0 {
    } else {
        lemma_enc_items_len(vals.drop_first(), enc, k);
        assert(k * vals.len() == k * (vals.drop_first().len() as int) + k) by (nonlinear_arith)
            requires vals.len() >= 1, vals.drop_first().len() == vals.len() - 1;
    }
}

#[verifier::rlimit(100)]
#[verifier::spinoff_prover]
pub proof fn lemma_dec_obj(m: ObjM, s: Seq<u8>, i: int)
    requires
        objm_wf(m),
        0 <= i,
        i + enc_obj(m).len() <= s.len(),
        s.subrange(i, i + enc_obj(m).len()) == enc_obj(m),
    ensures
        dec_obj(s, i) == Some((m, i + enc_obj(m).len())),
{
    broadcast use lemma_enc_u32_len, lemma_dec_u32_shape;
    let p1 = enc_i32(m.x);
    let p2 = enc_i32(m.y);
    let p3 = enc_char(m.glyph);
    let p4 = enc_color(m.color);
    let p5 = enc_str(m.name);
    let p6 = enc_bool(m.blocks);
    let p7 = enc_bool(m.alive);
    let p8 = enc_opt(m.fighter, |f| enc_fighter(f));
    let p9 = enc_opt(m.ai, |c| enc_ai(c));
    let p10 = enc_opt(m.item, |it| enc_item(it));
    let p11 = enc_bool(m.always_visible);
    let p12 = enc_i32(m.level);
    let p13 = enc_opt(m.equipment, |e| enc_equipment(e));

    lemma_split_prefix(s, i, enc_obj_head(m), enc_obj_tail(m));
    let i1 = i + p1.len();
    lemma_split_prefix(s, i, p1, p2 + (p3 + (p4 + p5)));
    let i2 = i1 + p2.len();
    lemma_split_prefix(s, i1, p2, p3 + (p4 + p5));
    let i3 = i2 + p3.len();
    lemma_split_prefix(s, i2, p3, p4 + p5);
    let i4 = i3 + p4.len();
    lemma_split_prefix(s, i3, p4, p5);
    let i5 = i4 + p5.len();
    lemma_split_prefix(s, i5, p6, p7 + (p8 + (p9 + (p10 + (p11 + (p12 + p13))))));
    let i6 = i5 + p6.len();
    lemma_split_prefix(s, i6, p7, p8 + (p9 + (p10 + (p11 + (p12 + p13)))));
    let i7 = i6 + p7.len();
    lemma_split_prefix(s, i7, p8, p9 + (p10 + (p11 + (p12 + p13))));
    let i8 = i7 + p8.len();
    lemma_split_prefix(s, i8, p9, p10 + (p11 + (p12 + p13)));
    let i9 = i8 + p9.len();
    lemma_split_prefix(s, i9, p10, p11 + (p12 + p13));
    let i10 = i9 + p10.len();
    lemma_split_prefix(s, i10, p11, p12 + p13);
    let i11 = i10 + p11.len();
    lemma_split_prefix(s, i11, p12, p13);
    let i12 = i11 + p12.len();

    lemma_dec_i32(m.x, s, i);
    lemma_dec_i32(m.y, s, i1);
    lemma_dec_char(m.glyph, s, i2);
    lemma_dec_color(m.color, s, i3);
    lemma_dec_str(m.name, s, i4);
    lemma_dec_bool(m.blocks, s, i5);
    lemma_dec_bool(m.alive, s, i6);
    lemma_fighter_decodes();
    lemma_ai_decodes();
    lemma_item_decodes();
    lemma_equipment_decodes();
    lemma_dec_opt(
        m.fighter,
        |f: crate::object::Fighter| true,
        |f| enc_fighter(f),
        |s2: Seq<u8>, i2x: int| dec_fighter(s2, i2x),
        s,
        i7,
    );
    lemma_dec_opt(
        m.ai,
        |c: Seq<i32>| c.len() <= u64::MAX,
        |c| enc_ai(c),
        |s2: Seq<u8>, i2x: int| dec_ai(s2, i2x),
        s,
        i8,
    );
    lemma_dec_opt(
        m.item,
        |it: crate::object::Item| true,
        |it| enc_item(it),
        |s2: Seq<u8>, i2x: int| dec_item(s2, i2x),
        s,
        i9,
    );
    lemma_dec_bool(m.always_visible, s, i10);
    lemma_dec_i32(m.level, s, i11);
    lemma_dec_opt(
        m.equipment,
        |e: crate::object::Equipment| true,
        |e| enc_equipment(e),
        |s2: Seq<u8>, i2x: int| dec_equipment(s2, i2x),
        s,
        i12,
    );
    assert(dec_i32(s, i) == Some((m.x, i1)));
    assert(dec_i32(s, i1) == Some((m.y, i2)));
    assert(dec_char(s, i2) == Some((m.glyph, i3)));
    assert(dec_color(s, i3) == Some((m.color, i4)));
    assert(dec_str(s, i4) == Some((m.name, i5)));
    assert(dec_bool(s, i5) == Some((m.blocks, i6)));
    assert(dec_bool(s, i6) == Some((m.alive, i7)));
    assert(dec_opt(s, i7, |s2: Seq<u8>, i2x: int| dec_fighter(s2, i2x)) == Some((m.fighter, i8)));
    assert(dec_opt(s, i8, |s2: Seq<u8>, i2x: int| dec_ai(s2, i2x)) == Some((m.ai, i9)));
    assert(dec_opt(s, i9, |s2: Seq<u8>, i2x: int| dec_item(s2, i2x)) == Some((m.item, i10)));
    assert(dec_bool(s, i10) == Some((m.always_visible, i11)));
    assert(dec_i32(s, i11) == Some((m.level, i12)));
    assert(dec_opt(s, i12, |s2: Seq<u8>, i2x: int| dec_equipment(s2, i2x)) == Some(
        (m.equipment, i12 + enc_opt(m.equipment, |e| enc_equipment(e)).len()),
    ));
}

/// The combat-stat decoder undoes its encoder.
pub proof fn lemma_fighter_decodes()
    ensures
        decodes_on(
            |f: crate::object::Fighter| true,
            |f: crate::object::Fighter| enc_fighter(f),
            |s2: Seq<u8>, i2: int| dec_fighter(s2, i2),
        ),
{
    let va = |f: crate::object::Fighter| true;
    let ef = |f: crate::object::Fighter| enc_fighter(f);
    let df = |s2: Seq<u8>, i2: int| dec_fighter(s2, i2);
    assert forall|v: crate::object::Fighter, s2: Seq<u8>, i2: int|
        va(v) && 0 <= i2 && i2 + ef(v).len() <= s2.len() && s2.subrange(i2, i2 + ef(v).len())
            == ef(v) implies #[trigger] df(s2, i2) == Some((v, i2 + (#[trigger] ef(v)).len())) by {
        lemma_dec_fighter(v, s2, i2);
    }
}

/// The AI-chain decoder undoes its encoder on bounded chains.
pub proof fn lemma_ai_decodes()
    ensures
        decodes_on(
            |c: Seq<i32>| c.len() <= u64::MAX,
            |c: Seq<i32>| enc_ai(c),
            |s2: Seq<u8>, i2: int| dec_ai(s2, i2),
        ),
{
    let va = |c: Seq<i32>| c.len() <= u64::MAX;
    let ea = |c: Seq<i32>| enc_ai(c);
    let da = |s2: Seq<u8>, i2: int| dec_ai(s2, i2);
    assert forall|v: Seq<i32>, s2: Seq<u8>, i2: int|
        va(v) && 0 <= i2 && i2 + ea(v).len() <= s2.len() && s2.subrange(i2, i2 + ea(v).len())
            == ea(v) implies #[trigger] da(s2, i2) == Some((v, i2 + (#[trigger] ea(v)).len())) by {
        lemma_dec_ai(v, s2, i2);
    }
}

/// The item-kind decoder undoes its encoder.
pub proof fn lemma_item_decodes()
    ensures
        decodes_on(
            |it: crate::object::Item| true,
            |it: crate::object::Item| enc_item(it),
            |s2: Seq<u8>, i2: int| dec_item(s2, i2),
        ),
{
    let va = |it: crate::object::Item| true;
    let ei = |it: crate::object::Item| enc_item(it);
    let di = |s2: Seq<u8>, i2: int| dec_item(s2, i2);
    assert forall|v: crate::object::Item, s2: Seq<u8>, i2: int|
        va(v) && 0 <= i2 && i2 + ei(v).len() <= s2.len() && s2.subrange(i2, i2 + ei(v).len())
            == ei(v) implies #[trigger] di(s2, i2) == Some((v, i2 + (#[trigger] ei(v)).len())) by {
        lemma_dec_item(v, s2, i2);
    }
}

/// The equipment decoder undoes its encoder.
pub proof fn lemma_equipment_decodes()
    ensures
        decodes_on(
            |e: crate::object::Equipment| true,
            |e: crate::object::Equipment| enc_equipment(e),
            |s2: Seq<u8>, i2: int| dec_equipment(s2, i2),
        ),
{
    let va = |e: crate::object::Equipment| true;
    let ee = |e: crate::object::Equipment| enc_equipment(e);
    let de = |s2: Seq<u8>, i2: int| dec_equipment(s2, i2);
    assert forall|v: crate::object::Equipment, s2: Seq<u8>, i2: int|
        va(v) && 0 <= i2 && i2 + ee(v).len() <= s2.len() && s2.subrange(i2, i2 + ee(v).len())
            == ee(v) implies #[trigger] de(s2, i2) == Some((v, i2 + (#[trigger] ee(v)).len())) by {
        lemma_dec_equipment(v, s2, i2);
    }
}

/// The tile decoder undoes its encoder.
pub proof fn lemma_tile_decodes()
    ensures
        decodes_on(
            |t: crate::tile::Tile| true,
            |t: crate::tile::Tile| enc_tile(t),
            |s2: Seq<u8>, i2: int| dec_tile(s2, i2),
        ),
{
    let va = |t: crate::tile::Tile| true;
    let et = |t: crate::tile::Tile| enc_tile(t);
    let dt = |s2: Seq<u8>, i2: int| dec_tile(s2, i2);
    assert forall|v: crate::tile::Tile, s2: Seq<u8>, i2: int|
        va(v) && 0 <= i2 && i2 + et(v).len() <= s2.len() && s2.subrange(i2, i2 + et(v).len())
            == et(v) implies #[trigger] dt(s2, i2) == Some((v, i2 + (#[trigger] et(v)).len())) by {
        lemma_dec_tile(v, s2, i2);
    }
}

/// The object decoder undoes its encoder on well-formed models.
pub proof fn lemma_obj_decodes()
    ensures
        decodes_on(|m: ObjM| objm_wf(m), |m: ObjM| enc_obj(m), |s2: Seq<u8>, i2: int| dec_obj(s2, i2)),
{
    let va = |m: ObjM| objm_wf(m);
    let eo = |m: ObjM| enc_obj(m);
    let do_ = |s2: Seq<u8>, i2: int| dec_obj(s2, i2);
    assert forall|v: ObjM, s2: Seq<u8>, i2: int|
        va(v) && 0 <= i2 && i2 + eo(v).len() <= s2.len() && s2.subrange(i2, i2 + eo(v).len())
            == eo(v) implies #[trigger] do_(s2, i2) == Some((v, i2 + (#[trigger] eo(v)).len())) by {
        lemma_dec_obj(v, s2, i2);
    }
}

/// One grid column: its height, then its tiles.
pub open spec fn enc_col(col: Seq<crate::tile::Tile>) -> Seq<u8> {
    enc_u64(col.len() as u64) + enc_items(col, |t: crate::tile::Tile| enc_tile(t))
}

pub open spec fn dec_col(s: Seq<u8>, i: int) -> Option<(Seq<crate::tile::Tile>, int)> {
    match dec_u64(s, i) {
        Some((n, j)) => dec_items(s, j, n as int, |s2: Seq<u8>, i2: int| dec_tile(s2, i2)),
        None => None,
    }
}

pub proof fn lemma_dec_col(col: Seq<crate::tile::Tile>, s: Seq<u8>, i: int)
    requires
        col.len() <= u64::MAX,
        0 <= i,
        i + enc_col(col).len() <= s.len(),
        s.subrange(i, i + enc_col(col).len()) == enc_col(col),
    ensures
        dec_col(s, i) == Some((col, i + enc_col(col).len())),
{
    broadcast use lemma_enc_u32_len, lemma_dec_u32_shape;
    let et = |t: crate::tile::Tile| enc_tile(t);
    let dt = |s2: Seq<u8>, i2: int| dec_tile(s2, i2);
    lemma_split_prefix(s, i, enc_u64(col.len() as u64), enc_items(col, et));
    lemma_dec_u64(col.len() as u64, s, i);
    lemma_tile_decodes();
    lemma_dec_items(col, |t: crate::tile::Tile| true, et, dt, s, i + 8);
}

/// The whole grid: its width, then its columns.
pub open spec fn enc_grid(g: Seq<Seq<crate::tile::Tile>>) -> Seq<u8> {
    enc_u64(g.len() as u64) + enc_items(g, |col: Seq<crate::tile::Tile>| enc_col(col))
}

pub open spec fn dec_grid(s: Seq<u8>, i: int) -> Option<(Seq<Seq<crate::tile::Tile>>, int)> {
    match dec_u64(s, i) {
        Some((n, j)) => dec_items(s, j, n as int, |s2: Seq<u8>, i2: int| dec_col(s2, i2)),
        None => None,
    }
}

/// A grid fits the encoding's length fields.
pub open spec fn gridm_wf(g: Seq<Seq<crate::tile::Tile>>) -> bool {
    g.len() <= u64::MAX && (forall|k: int| 0 <= k < g.len() ==> (#[trigger] g[k]).len() <= u64::MAX)
}

pub proof fn lemma_dec_grid(g: Seq<Seq<crate::tile::Tile>>, s: Seq<u8>, i: int)
    requires
        gridm_wf(g),
        0 <= i,
        i + enc_grid(g).len() <= s.len(),
        s.subrange(i, i + enc_grid(g).len()) == enc_grid(g),
    ensures
        dec_grid(s, i) == Some((g, i + enc_grid(g).len())),
{
    broadcast use lemma_enc_u32_len, lemma_dec_u32_shape;
    let va = |col: Seq<crate::tile::Tile>| col.len() <= u64::MAX;
    let ecol = |col: Seq<crate::tile::Tile>| enc_col(col);
    let dcol = |s2: Seq<u8>, i2: int| dec_col(s2, i2);
    lemma_split_prefix(s, i, enc_u64(g.len() as u64), enc_items(g, ecol));
    lemma_dec_u64(g.len() as u64, s, i);
    assert(decodes_on(va, ecol, dcol)) by {
        assert forall|v: Seq<crate::tile::Tile>, s2: Seq<u8>, i2: int|
            va(v) && 0 <= i2 && i2 + ecol(v).len() <= s2.len() && s2.subrange(i2, i2 + ecol(v).len())
                == ecol(v) implies #[trigger] dcol(s2, i2) == Some(
                (v, i2 + (#[trigger] ecol(v)).len()),
            ) by {
            lemma_dec_col(v, s2, i2);
        }
    }
    lemma_dec_items(g, va, ecol, dcol, s, i + 8);
}

/// One message-feed line: its text, then its color.
pub open spec fn enc_entry(e: (Seq<char>, crate::object::Color)) -> Seq<u8> {
    enc_str(e.0) + enc_color(e.1)
}

pub open spec fn dec_entry(s: Seq<u8>, i: int) -> Option<((Seq<char>, crate::object::Color), int)> {
    match dec_str(s, i) {
        Some((txt, j)) => match dec_color(s, j) {
            Some((c, k)) => Some(((txt, c), k)),
            None => None,
        },
        None => None,
    }
}

pub proof fn lemma_dec_entry(e: (Seq<char>, crate::object::Color), s: Seq<u8>, i: int)
    requires
        e.0.len() <= u64::MAX,
        0 <= i,
        i + enc_entry(e).len() <= s.len(),
        s.subrange(i, i + enc_entry(e).len()) == enc_entry(e),
    ensures
        dec_entry(s, i) == Some((e, i + enc_entry(e).len())),
{
    broadcast use lemma_enc_u32_len, lemma_dec_u32_shape;
    lemma_split_prefix(s, i, enc_str(e.0), enc_color(e.1));
    lemma_dec_str(e.0, s, i);
    lemma_dec_color(e.1, s, i + enc_str(e.0).len());
}

/// The whole message feed: its length, then its lines.
pub open spec fn enc_log(l: Seq<(Seq<char>, crate::object::Color)>) -> Seq<u8> {
    enc_u64(l.len() as u64) + enc_items(l, |e: (Seq<char>, crate::object::Color)| enc_entry(e))
}

pub open spec fn dec_log(s: Seq<u8>, i: int) -> Option<(Seq<(Seq<char>, crate::object::Color)>, int)> {
    match dec_u64(s, i) {
        Some((n, j)) => dec_items(s, j, n as int, |s2: Seq<u8>, i2: int| dec_entry(s2, i2)),
        None => None,
    }
}

pub open spec fn logm_wf(l: Seq<(Seq<char>, crate::object::Color)>) -> bool {
    l.len() <= u64::MAX && (forall|k: int| 0 <= k < l.len() ==> (#[trigger] l[k]).0.len() <= u64::MAX)
}

pub proof fn lemma_dec_log(l: Seq<(Seq<char>, crate::object::Color)>, s: Seq<u8>, i: int)
    requires
        logm_wf(l),
        0 <= i,
        i + enc_log(l).len() <= s.len(),
        s.subrange(i, i + enc_log(l).len()) == enc_log(l),
    ensures
        dec_log(s, i) == Some((l, i + enc_log(l).len())),
{
    broadcast use lemma_enc_u32_len, lemma_dec_u32_shape;
    let va = |e: (Seq<char>, crate::object::Color)| e.0.len() <= u64::MAX;
    let ee = |e: (Seq<char>, crate::object::Color)| enc_entry(e);
    let de = |s2: Seq<u8>, i2: int| dec_entry(s2, i2);
    lemma_split_prefix(s, i, enc_u64(l.len() as u64), enc_items(l, ee));
    lemma_dec_u64(l.len() as u64, s, i);
    assert(decodes_on(va, ee, de)) by {
        assert forall|v: (Seq<char>, crate::object::Color), s2: Seq<u8>, i2: int|
            va(v) && 0 <= i2 && i2 + ee(v).len() <= s2.len() && s2.subrange(i2, i2 + ee(v).len())
                == ee(v) implies #[trigger] de(s2, i2) == Some((v, i2 + (#[trigger] ee(v)).len())) by {
            lemma_dec_entry(v, s2, i2);
        }
    }
    lemma_dec_items(l, va, ee, de, s, i + 8);
}

/// A list of entity models: its length, then the entities.
pub open spec fn enc_objs(os: Seq<ObjM>) -> Seq<u8> {
    enc_u64(os.len() as u64) + enc_items(os, |m: ObjM| enc_obj(m))
}

pub open spec fn dec_objs(s: Seq<u8>, i: int) -> Option<(Seq<ObjM>, int)> {
    match dec_u64(s, i) {
        Some((n, j)) => dec_items(s, j, n as int, |s2: Seq<u8>, i2: int| dec_obj(s2, i2)),
        None => None,
    }
}

pub open spec fn objsm_wf(os: Seq<ObjM>) -> bool {
    os.len() <= u64::MAX && (forall|k: int| 0 <= k < os.len() ==> objm_wf(#[trigger] os[k]))
}

pub proof fn lemma_dec_objs(os: Seq<ObjM>, s: Seq<u8>, i: int)
    requires
        objsm_wf(os),
        0 <= i,
        i + enc_objs(os).len() <= s.len(),
        s.subrange(i, i + enc_objs(os).len()) == enc_objs(os),
    ensures
        dec_objs(s, i) == Some((os, i + enc_objs(os).len())),
{
    broadcast use lemma_enc_u32_len, lemma_dec_u32_shape;
    let va = |m: ObjM| objm_wf(m);
    let eo = |m: ObjM| enc_obj(m);
    let do_ = |s2: Seq<u8>, i2: int| dec_obj(s2, i2);
    lemma_split_prefix(s, i, enc_u64(os.len() as u64), enc_items(os, eo));
    lemma_dec_u64(os.len() as u64, s, i);
    lemma_obj_decodes();
    lemma_dec_items(os, va, eo, do_, s, i + 8);
}

/// The mathematical image of the whole persisted world.
pub struct WorldM {
    pub objects: Seq<ObjM>,
    pub grid: Seq<Seq<crate::tile::Tile>>,
    pub log: Seq<(Seq<char>, crate::object::Color)>,
    pub inventory: Seq<ObjM>,
    pub dungeon_level: u32,
}

pub open spec fn world_view(objects: Seq<crate::object::Object>, game: crate::game::Game) -> WorldM {
    WorldM {
        objects: objects.map_values(|o: crate::object::Object| obj_view(o)),
        grid: crate::mapgen::gv(game.grid),
        log: game.log@.map_values(|e: (String, crate::object::Color)| (e.0@, e.1)),
        inventory: game.inventory@.map_values(|o: crate::object::Object| obj_view(o)),
        dungeon_level: game.dungeon_level,
    }
}

pub open spec fn worldm_wf(w: WorldM) -> bool {
    &&& objsm_wf(w.objects)
    &&& gridm_wf(w.grid)
    &&& logm_wf(w.log)
    &&& objsm_wf(w.inventory)
}

pub open spec fn enc_world(w: WorldM) -> Seq<u8> {
    enc_objs(w.objects) + (enc_grid(w.grid) + (enc_log(w.log) + (enc_objs(w.inventory) + enc_u32(
        w.dungeon_level,
    ))))
}

pub open spec fn dec_world(s: Seq<u8>, i: int) -> Option<(WorldM, int)> {
    match dec_objs(s, i) {
        Some((objects, j1)) => match dec_grid(s, j1) {
            Some((grid, j2)) => match dec_log(s, j2) {
                Some((log, j3)) => match dec_objs(s, j3) {
                    Some((inventory, j4)) => match dec_u32(s, j4) {
                        Some((dungeon_level, j5)) => Some(
                            (WorldM { objects, grid, log, inventory, dungeon_level }, j5),
                        ),
                        None => None,
                    },
                    None => None,
                },
                None => None,
            },
            None => None,
        },
        None => None,
    }
}

#[verifier::rlimit(100)]
#[verifier::spinoff_prover]
pub proof fn lemma_dec_world(w: WorldM, s: Seq<u8>, i: int)
    requires
        worldm_wf(w),
        0 <= i,
        i + enc_world(w).len() <= s.len(),
        s.subrange(i, i + enc_world(w).len()) == enc_world(w),
    ensures
        dec_world(s, i) == Some((w, i + enc_world(w).len())),
{
    broadcast use lemma_enc_u32_len, lemma_dec_u32_shape;
    let p1 = enc_objs(w.objects);
    let p2 = enc_grid(w.grid);
    let p3 = enc_log(w.log);
    let p4 = enc_objs(w.inventory);
    let p5 = enc_u32(w.dungeon_level);
    let i1 = i + p1.len();
    lemma_split_prefix(s, i, p1, p2 + (p3 + (p4 + p5)));
    let i2 = i1 + p2.len();
    lemma_split_prefix(s, i1, p2, p3 + (p4 + p5));
    let i3 = i2 + p3.len();
    lemma_split_prefix(s, i2, p3, p4 + p5);
    let i4 = i3 + p4.len();
    lemma_split_prefix(s, i3, p4, p5);
    lemma_dec_objs(w.objects, s, i);
    lemma_dec_grid(w.grid, s, i1);
    lemma_dec_log(w.log, s, i2);
    lemma_dec_objs(w.inventory, s, i3);
    lemma_dec_u32(w.dungeon_level, s, i4);
}

/// The round trip: decoding a saved world from exactly its own
/// encoding yields the same world, byte budget included. Together with
/// the contracts of `encode_world` and `decode_world`, a save followed
/// by a load restores the entity list and the world aggregate —
/// explored flags, equip states and confusion counters included —
/// exactly.
pub proof fn lemma_world_round_trip(w: WorldM)
    requires
        worldm_wf(w),
    ensures
        dec_world(enc_world(w), 0) == Some((w, enc_world(w).len() as int)),
{
    broadcast use lemma_enc_u32_len, lemma_dec_u32_shape;
    assert(enc_world(w).subrange(0, enc_world(w).len() as int) =~= enc_world(w));
    lemma_dec_world(w, enc_world(w), 0);
}

fn write_u32(out: &mut Vec<u8>, u: u32)
    ensures
        final(out)@ == old(out)@ + enc_u32(u),
{
    out.push((u % 256) as u8);
    out.push(((u / 256) % 256) as u8);
    out.push(((u / 65536) % 256) as u8);
    out.push(((u / 16777216) % 256) as u8);
    proof {
        reveal(enc_u32);
        assert(out@ =~= old(out)@ + enc_u32(u));
    }
}

fn write_u64(out: &mut Vec<u8>, u: u64)
    ensures
        final(out)@ == old(out)@ + enc_u64(u),
{
    write_u32(out, (u % 0x100000000) as u32);
    write_u32(out, (u / 0x100000000) as u32);
    proof {
        assert(out@ =~= old(out)@ + enc_u64(u));
    }
}

fn write_i32(out: &mut Vec<u8>, v: i32)
    ensures
        final(out)@ == old(out)@ + enc_i32(v),
{
    let u: u32 = ((v as i64) + 0x80000000) as u32;
    proof {
        assert(u == (v + 0x80000000) as u32);
    }
    write_u32(out, u);
}

fn write_bool(out: &mut Vec<u8>, b: bool)
    ensures
        final(out)@ == old(out)@ + enc_bool(b),
{
    out.push(if b { 1 } else { 0 });
    proof {
        assert(out@ =~= old(out)@ + enc_bool(b));
    }
}

fn write_char(out: &mut Vec<u8>, c: char)
    ensures
        final(out)@ == old(out)@ + enc_char(c),
{
    write_u32(out, c as u32);
}

fn write_color(out: &mut Vec<u8>, c: crate::object::Color)
    ensures
        final(out)@ == old(out)@ + enc_color(c),
{
    out.push(c.r);
    out.push(c.g);
    out.push(c.b);
    proof {
        assert(out@ =~= old(out)@ + enc_color(c));
    }
}

fn write_tile(out: &mut Vec<u8>, t: crate::tile::Tile)
    ensures
        final(out)@ == old(out)@ + enc_tile(t),
{
    write_bool(out, t.blocked);
    write_bool(out, t.block_sight);
    write_bool(out, t.explored);
    proof {
        assert(out@ =~= old(out)@ + enc_tile(t));
    }
}

fn write_slot(out: &mut Vec<u8>, sl: crate::object::Slot)
    ensures
        final(out)@ == old(out)@ + enc_slot(sl),
{
    let b: u8 = match sl {
        crate::object::Slot::LeftHand => 0,
        crate::object::Slot::RightHand => 1,
        crate::object::Slot::Head => 2,
    };
    out.push(b);
    proof {
        assert(out@ =~= old(out)@ + enc_slot(sl));
    }
}

fn write_item(out: &mut Vec<u8>, it: crate::object::Item)
    ensures
        final(out)@ == old(out)@ + enc_item(it),
{
    let b: u8 = match it {
        crate::object::Item::Heal => 0,
        crate::object::Item::Lightning => 1,
        crate::object::Item::Confuse => 2,
        crate::object::Item::Fireball => 3,
        crate::object::Item::Equipment => 4,
    };
    out.push(b);
    proof {
        assert(out@ =~= old(out)@ + enc_item(it));
    }
}

fn write_dcb(out: &mut Vec<u8>, d: crate::object::DeathCallback)
    ensures
        final(out)@ == old(out)@ + enc_dcb(d),
{
    let b: u8 = match d {
        crate::object::DeathCallback::Player => 0,
        crate::object::DeathCallback::Monster => 1,
    };
    out.push(b);
    proof {
        assert(out@ =~= old(out)@ + enc_dcb(d));
    }
}

fn write_fighter(out: &mut Vec<u8>, f: crate::object::Fighter)
    ensures
        final(out)@ == old(out)@ + enc_fighter(f),
{
    write_i32(out, f.max_hp);
    write_i32(out, f.hp);
    write_i32(out, f.defense);
    write_i32(out, f.base_power);
    write_dcb(out, f.on_death);
    write_i32(out, f.xp);
    proof {
        assert(out@ =~= old(out)@ + enc_fighter(f));
    }
}

fn write_equipment(out: &mut Vec<u8>, e: crate::object::Equipment)
    ensures
        final(out)@ == old(out)@ + enc_equipment(e),
{
    write_slot(out, e.slot);
    write_bool(out, e.equipped);
    write_i32(out, e.power_bonus);
    proof {
        assert(out@ =~= old(out)@ + enc_equipment(e));
    }
}

/// Appending one more value extends the run of encodings at the end.
pub proof fn lemma_enc_items_push<A>(vals: Seq<A>, x: A, enc: spec_fn(A) -> Seq<u8>)
    ensures
        enc_items(vals.push(x), enc) == enc_items(vals, enc) + enc(x),
    decreases vals.len(),
{
    if vals.len() == 0 {
        assert(vals.push(x).first() == x);
        assert(vals.push(x).drop_first() =~= Seq::<A>::empty());
        assert(enc_items(vals.push(x), enc) == enc(x) + enc_items(Seq::<A>::empty(), enc));
        assert(enc_items(Seq::<A>::empty(), enc) =~= Seq::<u8>::empty());
        assert(vals =~= Seq::<A>::empty());
        assert(enc_items(vals.push(x), enc) =~= enc_items(vals, enc) + enc(x));
    } else {
        assert(vals.push(x).first() == vals.first());
        assert(vals.push(x).drop_first() =~= vals.drop_first().push(x));
        lemma_enc_items_push(vals.drop_first(), x, enc);
        assert(enc_items(vals.push(x), enc) == enc(vals.push(x).first()) + enc_items(
            vals.push(x).drop_first(),
            enc,
        ));
        assert(enc_items(vals, enc) == enc(vals.first()) + enc_items(vals.drop_first(), enc));
        assert(enc_items(vals.push(x), enc) =~= enc_items(vals, enc) + enc(x));
    }
}

fn write_str(out: &mut Vec<u8>, text: &String)
    ensures
        final(out)@ == old(out)@ + enc_str(text@),
        text@.len() <= u64::MAX,
{
    let n = text.as_str().unicode_len();
    write_u64(out, n as u64);
    let mut k: usize = 0;
    while k < n
        invariant
            n == text@.len(),
            k <= n,
            out@ == old(out)@ + enc_u64(n as u64) + enc_items(
                text@.take(k as int),
                |c: char| enc_char(c),
            ),
        decreases n - k,
    {
        let c = text.as_str().get_char(k);
        write_char(out, c);
        proof {
            lemma_enc_items_push(text@.take(k as int), c, |c2: char| enc_char(c2));
            assert(text@.take(k as int).push(c) =~= text@.take(k as int + 1));
            assert(out@ =~= old(out)@ + enc_u64(n as u64) + enc_items(
                text@.take(k as int + 1),
                |c2: char| enc_char(c2),
            ));
        }
        k = k + 1;
    }
    proof {
        assert(text@.take(n as int) =~= text@);
        assert(out@ =~= old(out)@ + enc_str(text@));
    }
}

fn write_ai(out: &mut Vec<u8>, a: &crate::object::Ai)
    ensures
        final(out)@ == old(out)@ + enc_ai(ai_view(*a)),
        ai_view(*a).len() <= u64::MAX,
{
    let mut chain: Vec<i32> = Vec::new();
    let mut cur: &crate::object::Ai = a;
    let mut done: bool = match cur {
        crate::object::Ai::Basic => true,
        crate::object::Ai::Confused { .. } => false,
    };
    while !done
        invariant
            ai_view(*a) == chain@ + ai_view(*cur),
            done ==> (cur is Basic),
        decreases *cur, (if done { 0int } else { 1int }),
    {
        match cur {
            crate::object::Ai::Basic => {
                done = true;
            },
            crate::object::Ai::Confused { previous_ai, num_turns } => {
                chain.push(*num_turns);
                proof {
                    assert(ai_view(*a) =~= chain@ + ai_view(**previous_ai));
                }
                cur = previous_ai;
            },
        }
    }
    proof {
        assert(ai_view(*cur) =~= Seq::<i32>::empty());
        assert(ai_view(*a) =~= chain@);
    }
    write_u64(out, chain.len() as u64);
    let mut k: usize = 0;
    let ghost mid = out@;
    while k < chain.len()
        invariant
            k <= chain@.len(),
            out@ == mid + enc_items(chain@.take(k as int), |v: i32| enc_i32(v)),
        decreases chain@.len() - k,
    {
        write_i32(out, chain[k]);
        proof {
            lemma_enc_items_push(chain@.take(k as int), chain@[k as int], |v: i32| enc_i32(v));
            assert(chain@.take(k as int).push(chain@[k as int]) =~= chain@.take(k as int + 1));
            assert(out@ =~= mid + enc_items(chain@.take(k as int + 1), |v: i32| enc_i32(v)));
        }
        k = k + 1;
    }
    proof {
        assert(chain@.take(chain@.len() as int) =~= chain@);
        assert(out@ =~= old(out)@ + enc_ai(ai_view(*a)));
    }
}

fn write_opt_fighter(out: &mut Vec<u8>, o: &Option<crate::object::Fighter>)
    ensures
        final(out)@ == old(out)@ + enc_opt(*o, |f: crate::object::Fighter| enc_fighter(f)),
{
    match o {
        Some(f) => {
            out.push(1);
            write_fighter(out, *f);
            proof {
                assert(out@ =~= old(out)@ + enc_opt(*o, |f2: crate::object::Fighter| enc_fighter(f2)));
            }
        },
        None => {
            out.push(0);
            proof {
                assert(out@ =~= old(out)@ + enc_opt(*o, |f2: crate::object::Fighter| enc_fighter(f2)));
            }
        },
    }
}

fn write_opt_ai(out: &mut Vec<u8>, o: &Option<crate::object::Ai>)
    ensures
        final(out)@ == old(out)@ + enc_opt(
            (match *o {
                Option::Some(a) => Option::Some(ai_view(a)),
                Option::None => Option::None,
            }),
            |c: Seq<i32>| enc_ai(c),
        ),
        (match *o {
            Option::Some(a) => ai_view(a).len() <= u64::MAX,
            Option::None => true,
        }),
{
    match o {
        Some(a) => {
            out.push(1);
            write_ai(out, a);
            proof {
                assert(out@ =~= old(out)@ + enc_opt(
                    Option::Some(ai_view(*a)),
                    |c: Seq<i32>| enc_ai(c),
                ));
            }
        },
        None => {
            out.push(0);
            proof {
                assert(out@ =~= old(out)@ + enc_opt(Option::<Seq<i32>>::None, |c: Seq<i32>| enc_ai(c)));
            }
        },
    }
}

fn write_opt_item(out: &mut Vec<u8>, o: &Option<crate::object::Item>)
    ensures
        final(out)@ == old(out)@ + enc_opt(*o, |it: crate::object::Item| enc_item(it)),
{
    match o {
        Some(it) => {
            out.push(1);
            write_item(out, *it);
            proof {
                assert(out@ =~= old(out)@ + enc_opt(*o, |it2: crate::object::Item| enc_item(it2)));
            }
        },
        None => {
            out.push(0);
            proof {
                assert(out@ =~= old(out)@ + enc_opt(*o, |it2: crate::object::Item| enc_item(it2)));
            }
        },
    }
}

fn write_opt_equipment(out: &mut Vec<u8>, o: &Option<crate::object::Equipment>)
    ensures
        final(out)@ == old(out)@ + enc_opt(*o, |e: crate::object::Equipment| enc_equipment(e)),
{
    match o {
        Some(e) => {
            out.push(1);
            write_equipment(out, *e);
            proof {
                assert(out@ =~= old(out)@ + enc_opt(*o, |e2: crate::object::Equipment| enc_equipment(e2)));
            }
        },
        None => {
            out.push(0);
            proof {
                assert(out@ =~= old(out)@ + enc_opt(*o, |e2: crate::object::Equipment| enc_equipment(e2)));
            }
        },
    }
}

#[verifier::rlimit(100)]
#[verifier::spinoff_prover]
fn write_obj(out: &mut Vec<u8>, o: &crate::object::Object)
    ensures
        final(out)@ == old(out)@ + enc_obj(obj_view(*o)),
        objm_wf(obj_view(*o)),
{
    write_i32(out, o.x);
    write_i32(out, o.y);
    write_char(out, o.glyph);
    write_color(out, o.color);
    write_str(out, &o.name);
    proof {
        assert(out@ =~= old(out)@ + enc_obj_head(obj_view(*o)));
    }
    let ghost after_head = out@;
    write_bool(out, o.blocks);
    let ghost s6 = out@;
    write_bool(out, o.alive);
    let ghost s7 = out@;
    write_opt_fighter(out, &o.fighter);
    let ghost s8 = out@;
    write_opt_ai(out, &o.ai);
    let ghost s9 = out@;
    write_opt_item(out, &o.item);
    let ghost s10 = out@;
    write_bool(out, o.always_visible);
    let ghost s11 = out@;
    write_i32(out, o.level);
    let ghost s12 = out@;
    write_opt_equipment(out, &o.equipment);
    proof {
        let m = obj_view(*o);
        let p6 = enc_bool(m.blocks);
        let p7 = enc_bool(m.alive);
        let p8 = enc_opt(m.fighter, |f| enc_fighter(f));
        let p9 = enc_opt(m.ai, |c| enc_ai(c));
        let p10 = enc_opt(m.item, |it| enc_item(it));
        let p11 = enc_bool(m.always_visible);
        let p12 = enc_i32(m.level);
        let p13 = enc_opt(m.equipment, |e| enc_equipment(e));
        let r12 = p12 + p13;
        let r11 = p11 + r12;
        let r10 = p10 + r11;
        let r9 = p9 + r10;
        let r8 = p8 + r9;
        let r7 = p7 + r8;
        assert(out@ =~= s12 + p13);
        assert(out@ =~= s11 + r12);
        assert(out@ =~= s10 + r11);
        assert(out@ =~= s9 + r10);
        assert(out@ =~= s8 + r9);
        assert(out@ =~= s7 + r8);
        assert(out@ =~= s6 + r7);
        assert(out@ =~= after_head + enc_obj_tail(m));
        assert(out@ =~= old(out)@ + (enc_obj_head(m) + enc_obj_tail(m)));
    }
}

fn write_objs(out: &mut Vec<u8>, objects: &Vec<crate::object::Object>)
    ensures
        final(out)@ == old(out)@ + enc_objs(objects@.map_values(|o: crate::object::Object| obj_view(o))),
        objsm_wf(objects@.map_values(|o: crate::object::Object| obj_view(o))),
{
    let ghost models = objects@.map_values(|o: crate::object::Object| obj_view(o));
    write_u64(out, objects.len() as u64);
    let ghost mid = out@;
    let mut k: usize = 0;
    while k < objects.len()
        invariant
            k <= objects@.len(),
            models == objects@.map_values(|o: crate::object::Object| obj_view(o)),
            out@ == mid + enc_items(models.take(k as int), |m: ObjM| enc_obj(m)),
            forall|j: int| 0 <= j < k ==> objm_wf(#[trigger] models[j]),
        decreases objects@.len() - k,
    {
        write_obj(out, &objects[k]);
        proof {
            assert(models[k as int] == obj_view(objects@[k as int]));
            lemma_enc_items_push(models.take(k as int), models[k as int], |m: ObjM| enc_obj(m));
            assert(models.take(k as int).push(models[k as int]) =~= models.take(k as int + 1));
            assert(out@ =~= mid + enc_items(models.take(k as int + 1), |m: ObjM| enc_obj(m)));
        }
        k = k + 1;
    }
    proof {
        assert(models.take(models.len() as int) =~= models);
        assert(out@ =~= old(out)@ + enc_objs(models));
    }
}

fn write_grid(out: &mut Vec<u8>, grid: &crate::tile::Grid)
    ensures
        final(out)@ == old(out)@ + enc_grid(crate::mapgen::gv(*grid)),
        gridm_wf(crate::mapgen::gv(*grid)),
{
    let ghost g = crate::mapgen::gv(*grid);
    write_u64(out, grid.len() as u64);
    let ghost mid = out@;
    let mut k: usize = 0;
    while k < grid.len()
        invariant
            k <= grid@.len(),
            g == crate::mapgen::gv(*grid),
            g.len() == grid@.len(),
            out@ == mid + enc_items(g.take(k as int), |col: Seq<crate::tile::Tile>| enc_col(col)),
            forall|j: int| 0 <= j < k ==> (#[trigger] g[j]).len() <= u64::MAX,
        decreases grid@.len() - k,
    {
        let column = &grid[k];
        proof {
            assert(g[k as int] == grid@[k as int]@);
        }
        write_u64(out, column.len() as u64);
        let ghost mid2 = out@;
        let mut j: usize = 0;
        while j < column.len()
            invariant
                j <= column@.len(),
                out@ == mid2 + enc_items(column@.take(j as int), |t: crate::tile::Tile| enc_tile(t)),
            decreases column@.len() - j,
        {
            write_tile(out, column[j]);
            proof {
                lemma_enc_items_push(
                    column@.take(j as int),
                    column@[j as int],
                    |t: crate::tile::Tile| enc_tile(t),
                );
                assert(column@.take(j as int).push(column@[j as int]) =~= column@.take(j as int + 1));
                assert(out@ =~= mid2 + enc_items(
                    column@.take(j as int + 1),
                    |t: crate::tile::Tile| enc_tile(t),
                ));
            }
            j = j + 1;
        }
        proof {
            assert(column@.take(column@.len() as int) =~= column@);
            assert(out@ =~= mid2 + enc_items(column@, |t: crate::tile::Tile| enc_tile(t)));
            assert(out@ =~= mid + enc_items(
                g.take(k as int),
                |col: Seq<crate::tile::Tile>| enc_col(col),
            ) + enc_col(g[k as int]));
            lemma_enc_items_push(
                g.take(k as int),
                g[k as int],
                |col: Seq<crate::tile::Tile>| enc_col(col),
            );
            assert(g.take(k as int).push(g[k as int]) =~= g.take(k as int + 1));
            assert(out@ =~= mid + enc_items(
                g.take(k as int + 1),
                |col: Seq<crate::tile::Tile>| enc_col(col),
            ));
        }
        k = k + 1;
    }
    proof {
        assert(g.take(g.len() as int) =~= g);
        assert(out@ =~= old(out)@ + enc_grid(g));
    }
}

fn write_log(out: &mut Vec<u8>, log: &crate::game::Messages)
    ensures
        final(out)@ == old(out)@ + enc_log(
            log@.map_values(|e: (String, crate::object::Color)| (e.0@, e.1)),
        ),
        logm_wf(log@.map_values(|e: (String, crate::object::Color)| (e.0@, e.1))),
{
    let ghost models = log@.map_values(|e: (String, crate::object::Color)| (e.0@, e.1));
    write_u64(out, log.len() as u64);
    let ghost mid = out@;
    let mut k: usize = 0;
    while k < log.len()
        invariant
            k <= log@.len(),
            models == log@.map_values(|e: (String, crate::object::Color)| (e.0@, e.1)),
            out@ == mid + enc_items(
                models.take(k as int),
                |e: (Seq<char>, crate::object::Color)| enc_entry(e),
            ),
            forall|j: int| 0 <= j < k ==> (#[trigger] models[j]).0.len() <= u64::MAX,
        decreases log@.len() - k,
    {
        let entry = &log[k];
        write_str(out, &entry.0);
        write_color(out, entry.1);
        proof {
            assert(models[k as int] == (log@[k as int].0@, log@[k as int].1));
            lemma_enc_items_push(
                models.take(k as int),
                models[k as int],
                |e: (Seq<char>, crate::object::Color)| enc_entry(e),
            );
            assert(models.take(k as int).push(models[k as int]) =~= models.take(k as int + 1));
            assert(out@ =~= mid + enc_items(
                models.take(k as int + 1),
                |e: (Seq<char>, crate::object::Color)| enc_entry(e),
            ));
        }
        k = k + 1;
    }
    proof {
        assert(models.take(models.len() as int) =~= models);
        assert(out@ =~= old(out)@ + enc_log(models));
    }
}

/// Serializes the whole mutable world — entity list, grid, message
/// feed, inventory, and depth — into one byte record.
pub fn encode_world(objects: &Vec<crate::object::Object>, game: &crate::game::Game) -> (out: Vec<u8>)
    ensures
        out@ == enc_world(world_view(objects@, *game)),
        worldm_wf(world_view(objects@, *game)),
{
    let mut out: Vec<u8> = Vec::new();
    write_objs(&mut out, objects);
    write_grid(&mut out, &game.grid);
    write_log(&mut out, &game.log);
    write_objs(&mut out, &game.inventory);
    write_u32(&mut out, game.dungeon_level);
    proof {
        assert(out@ =~= enc_world(world_view(objects@, *game)));
    }
    out
}

fn read_u8(bytes: &Vec<u8>, pos: &mut usize) -> (r: Option<u8>)
    ensures
        (match r {
            Some(b) => *old(pos) < bytes@.len() && b == bytes@[*old(pos) as int] && *final(pos)
                == *old(pos) + 1,
            None => *old(pos) >= bytes@.len() && *final(pos) == *old(pos),
        }),
{
    if *pos < bytes.len() {
        let b = bytes[*pos];
        *pos = *pos + 1;
        Some(b)
    } else {
        None
    }
}

fn read_u32(bytes: &Vec<u8>, pos: &mut usize) -> (r: Option<u32>)
    ensures
        (match r {
            Some(u) => dec_u32(bytes@, *old(pos) as int) == Some((u, *final(pos) as int))
                && *final(pos) <= bytes@.len()
                && *old(pos) <= *final(pos),
            None => dec_u32(bytes@, *old(pos) as int) is None && *final(pos) == *old(pos),
        }),
{
    proof {
        reveal(dec_u32);
    }
    if *pos <= bytes.len() && bytes.len() - *pos >= 4 {
        let b0 = bytes[*pos] as u32;
        let b1 = bytes[*pos + 1] as u32;
        let b2 = bytes[*pos + 2] as u32;
        let b3 = bytes[*pos + 3] as u32;
        let u = b0 + 256 * b1 + 65536 * b2 + 16777216 * b3;
        *pos = *pos + 4;
        Some(u)
    } else {
        None
    }
}

fn read_u64(bytes: &Vec<u8>, pos: &mut usize) -> (r: Option<u64>)
    ensures
        (match r {
            Some(u) => dec_u64(bytes@, *old(pos) as int) == Some((u, *final(pos) as int))
                && *final(pos) <= bytes@.len()
                && *old(pos) <= *final(pos),
            None => dec_u64(bytes@, *old(pos) as int) is None,
        }),
{
    let lo = match read_u32(bytes, pos) {
        Some(v) => v,
        None => {
            return None;
        },
    };
    let hi = match read_u32(bytes, pos) {
        Some(v) => v,
        None => {
            return None;
        },
    };
    Some(lo as u64 + 0x100000000u64 * (hi as u64))
}

fn read_i32(bytes: &Vec<u8>, pos: &mut usize) -> (r: Option<i32>)
    ensures
        (match r {
            Some(v) => dec_i32(bytes@, *old(pos) as int) == Some((v, *final(pos) as int))
                && *final(pos) <= bytes@.len()
                && *old(pos) <= *final(pos),
            None => dec_i32(bytes@, *old(pos) as int) is None,
        }),
{
    match read_u32(bytes, pos) {
        Some(u) => Some(((u as i64) - 0x80000000i64) as i32),
        None => None,
    }
}

fn read_bool(bytes: &Vec<u8>, pos: &mut usize) -> (r: Option<bool>)
    ensures
        (match r {
            Some(b) => dec_bool(bytes@, *old(pos) as int) == Some((b, *final(pos) as int))
                && *final(pos) <= bytes@.len()
                && *old(pos) <= *final(pos),
            None => dec_bool(bytes@, *old(pos) as int) is None,
        }),
{
    match read_u8(bytes, pos) {
        Some(b) => {
            if b == 0 {
                Some(false)
            } else if b == 1 {
                Some(true)
            } else {
                None
            }
        },
        None => None,
    }
}

fn read_char(bytes: &Vec<u8>, pos: &mut usize) -> (r: Option<char>)
    ensures
        (match r {
            Some(c) => dec_char(bytes@, *old(pos) as int) == Some((c, *final(pos) as int))
                && *final(pos) <= bytes@.len()
                && *old(pos) <= *final(pos),
            None => dec_char(bytes@, *old(pos) as int) is None,
        }),
{
    match read_u32(bytes, pos) {
        Some(u) => char::from_u32(u),
        None => None,
    }
}

fn read_color(bytes: &Vec<u8>, pos: &mut usize) -> (r: Option<crate::object::Color>)
    ensures
        (match r {
            Some(c) => dec_color(bytes@, *old(pos) as int) == Some((c, *final(pos) as int))
                && *final(pos) <= bytes@.len()
                && *old(pos) <= *final(pos),
            None => dec_color(bytes@, *old(pos) as int) is None,
        }),
{
    if *pos <= bytes.len() && bytes.len() - *pos >= 3 {
        let red = bytes[*pos];
        let green = bytes[*pos + 1];
        let blue = bytes[*pos + 2];
        *pos = *pos + 3;
        Some(crate::object::Color { r: red, g: green, b: blue })
    } else {
        None
    }
}

fn read_tile(bytes: &Vec<u8>, pos: &mut usize) -> (r: Option<crate::tile::Tile>)
    ensures
        (match r {
            Some(t) => dec_tile(bytes@, *old(pos) as int) == Some((t, *final(pos) as int))
                && *final(pos) <= bytes@.len()
                && *old(pos) <= *final(pos),
            None => dec_tile(bytes@, *old(pos) as int) is None,
        }),
{
    let blocked = match read_bool(bytes, pos) {
        Some(v) => v,
        None => {
            return None;
        },
    };
    let block_sight = match read_bool(bytes, pos) {
        Some(v) => v,
        None => {
            return None;
        },
    };
    let explored = match read_bool(bytes, pos) {
        Some(v) => v,
        None => {
            return None;
        },
    };
    Some(crate::tile::Tile { blocked, block_sight, explored })
}

fn read_slot(bytes: &Vec<u8>, pos: &mut usize) -> (r: Option<crate::object::Slot>)
    ensures
        (match r {
            Some(sl) => dec_slot(bytes@, *old(pos) as int) == Some((sl, *final(pos) as int))
                && *final(pos) <= bytes@.len()
                && *old(pos) <= *final(pos),
            None => dec_slot(bytes@, *old(pos) as int) is None,
        }),
{
    match read_u8(bytes, pos) {
        Some(0) => Some(crate::object::Slot::LeftHand),
        Some(1) => Some(crate::object::Slot::RightHand),
        Some(2) => Some(crate::object::Slot::Head),
        _ => None,
    }
}

fn read_item(bytes: &Vec<u8>, pos: &mut usize) -> (r: Option<crate::object::Item>)
    ensures
        (match r {
            Some(it) => dec_item(bytes@, *old(pos) as int) == Some((it, *final(pos) as int))
                && *final(pos) <= bytes@.len()
                && *old(pos) <= *final(pos),
            None => dec_item(bytes@, *old(pos) as int) is None,
        }),
{
    match read_u8(bytes, pos) {
        Some(0) => Some(crate::object::Item::Heal),
        Some(1) => Some(crate::object::Item::Lightning),
        Some(2) => Some(crate::object::Item::Confuse),
        Some(3) => Some(crate::object::Item::Fireball),
        Some(4) => Some(crate::object::Item::Equipment),
        _ => None,
    }
}

fn read_dcb(bytes: &Vec<u8>, pos: &mut usize) -> (r: Option<crate::object::DeathCallback>)
    ensures
        (match r {
            Some(d) => dec_dcb(bytes@, *old(pos) as int) == Some((d, *final(pos) as int))
                && *final(pos) <= bytes@.len()
                && *old(pos) <= *final(pos),
            None => dec_dcb(bytes@, *old(pos) as int) is None,
        }),
{
    match read_u8(bytes, pos) {
        Some(0) => Some(crate::object::DeathCallback::Player),
        Some(1) => Some(crate::object::DeathCallback::Monster),
        _ => None,
    }
}

fn read_fighter(bytes: &Vec<u8>, pos: &mut usize) -> (r: Option<crate::object::Fighter>)
    ensures
        (match r {
            Some(f) => dec_fighter(bytes@, *old(pos) as int) == Some((f, *final(pos) as int))
                && *final(pos) <= bytes@.len()
                && *old(pos) <= *final(pos),
            None => dec_fighter(bytes@, *old(pos) as int) is None,
        }),
{
    let max_hp = match read_i32(bytes, pos) {
        Some(v) => v,
        None => {
            return None;
        },
    };
    let hp = match read_i32(bytes, pos) {
        Some(v) => v,
        None => {
            return None;
        },
    };
    let defense = match read_i32(bytes, pos) {
        Some(v) => v,
        None => {
            return None;
        },
    };
    let base_power = match read_i32(bytes, pos) {
        Some(v) => v,
        None => {
            return None;
        },
    };
    let on_death = match read_dcb(bytes, pos) {
        Some(v) => v,
        None => {
            return None;
        },
    };
    let xp = match read_i32(bytes, pos) {
        Some(v) => v,
        None => {
            return None;
        },
    };
    Some(crate::object::Fighter { max_hp, hp, defense, base_power, on_death, xp })
}

fn read_equipment(bytes: &Vec<u8>, pos: &mut usize) -> (r: Option<crate::object::Equipment>)
    ensures
        (match r {
            Some(e) => dec_equipment(bytes@, *old(pos) as int) == Some((e, *final(pos) as int))
                && *final(pos) <= bytes@.len()
                && *old(pos) <= *final(pos),
            None => dec_equipment(bytes@, *old(pos) as int) is None,
        }),
{
    let slot = match read_slot(bytes, pos) {
        Some(v) => v,
        None => {
            return None;
        },
    };
    let equipped = match read_bool(bytes, pos) {
        Some(v) => v,
        None => {
            return None;
        },
    };
    let power_bonus = match read_i32(bytes, pos) {
        Some(v) => v,
        None => {
            return None;
        },
    };
    Some(crate::object::Equipment { slot, equipped, power_bonus })
}

#[verifier::loop_isolation(false)]
fn read_str(bytes: &Vec<u8>, pos: &mut usize) -> (r: Option<String>)
    ensures
        (match r {
            Some(text) => dec_str(bytes@, *old(pos) as int) == Some((text@, *final(pos) as int))
                && *final(pos) <= bytes@.len()
                && *old(pos) <= *final(pos),
            None => dec_str(bytes@, *old(pos) as int) is None,
        }),
{
    let ghost dc = |s2: Seq<u8>, i2: int| dec_char(s2, i2);
    let n64 = match read_u64(bytes, pos) {
        Some(v) => v,
        None => {
            return None;
        },
    };
    let ghost j0 = *pos as int;
    let blen = bytes.len();
    if n64 > (usize::MAX as u64) {
        proof {
            if dec_items(bytes@, j0, n64 as int, dc) is Some {
                assert forall|i2: int|
                    (#[trigger] dc(bytes@, i2)) is Some implies dc(bytes@, i2).unwrap().1 == i2 + 4
                        && i2 + 4 <= bytes@.len() by {
                    lemma_dec_u32_shape(bytes@, i2);
                }
                lemma_dec_items_stride(bytes@, j0, n64 as int, dc, 4);
                assert(4 * (n64 as int) >= n64 as int) by (nonlinear_arith)
                    requires n64 as int >= 0;
                assert(bytes@.len() == blen);
                assert(false);
            }
        }
        return None;
    }
    let n = n64 as usize;
    let mut text = String::new();
    let mut k: usize = 0;
    while k < n
        invariant
            k <= n,
            n == n64,
            *pos <= bytes@.len(),
            j0 <= *pos as int,
            text@.len() == k,
            dec_items(bytes@, j0, n as int, dc) == (match dec_items(
                bytes@,
                *pos as int,
                n - k,
                dc,
            ) {
                Some((rest, e)) => Some((text@ + rest, e)),
                None => None::<(Seq<char>, int)>,
            }),
        decreases n - k,
    {
        let ghost pre_pos = *pos as int;
        let c = match read_char(bytes, pos) {
            Some(c) => c,
            None => {
                proof {
                    assert(dec_items(bytes@, pre_pos, n - k, dc) is None);
                }
                return None;
            },
        };
        let ghost pre_text = text@;
        text.push(c);
        proof {
            let tail = dec_items(bytes@, *pos as int, n - k - 1, dc);
            assert(dec_items(bytes@, pre_pos, n - k, dc) == (match tail {
                Some((vs, e)) => Some((seq![c] + vs, e)),
                None => None::<(Seq<char>, int)>,
            }));
            if tail is Some {
                let (vs, e) = tail.unwrap();
                assert(pre_text + (seq![c] + vs) =~= text@ + vs);
            }
        }
        k = k + 1;
    }
    proof {
        assert(dec_items(bytes@, *pos as int, 0, dc) == Some((Seq::<char>::empty(), *pos as int)));
        assert(text@ + Seq::<char>::empty() =~= text@);
    }
    Some(text)
}

#[verifier::loop_isolation(false)]
fn read_ai(bytes: &Vec<u8>, pos: &mut usize) -> (r: Option<crate::object::Ai>)
    ensures
        (match r {
            Some(a) => dec_ai(bytes@, *old(pos) as int) == Some((ai_view(a), *final(pos) as int))
                && *final(pos) <= bytes@.len() && *old(pos) <= *final(pos),
            None => dec_ai(bytes@, *old(pos) as int) is None,
        }),
{
    let ghost dc = |s2: Seq<u8>, i2: int| dec_i32(s2, i2);
    let n64 = match read_u64(bytes, pos) {
        Some(v) => v,
        None => {
            return None;
        },
    };
    let ghost j0 = *pos as int;
    let blen = bytes.len();
    if n64 > (usize::MAX as u64) {
        proof {
            if dec_items(bytes@, j0, n64 as int, dc) is Some {
                assert forall|i2: int|
                    (#[trigger] dc(bytes@, i2)) is Some implies dc(bytes@, i2).unwrap().1 == i2 + 4
                        && i2 + 4 <= bytes@.len() by {
                    lemma_dec_u32_shape(bytes@, i2);
                }
                lemma_dec_items_stride(bytes@, j0, n64 as int, dc, 4);
                assert(4 * (n64 as int) >= n64 as int) by (nonlinear_arith)
                    requires n64 as int >= 0;
                assert(bytes@.len() == blen);
                assert(false);
            }
        }
        return None;
    }
    let n = n64 as usize;
    let mut chain: Vec<i32> = Vec::new();
    let mut k: usize = 0;
    while k < n
        invariant
            k <= n,
            n == n64,
            *pos <= bytes@.len(),
            j0 <= *pos as int,
            chain@.len() == k,
            dec_items(bytes@, j0, n as int, dc) == (match dec_items(
                bytes@,
                *pos as int,
                n - k,
                dc,
            ) {
                Some((rest, e)) => Some((chain@ + rest, e)),
                None => None::<(Seq<i32>, int)>,
            }),
        decreases n - k,
    {
        let ghost pre_pos = *pos as int;
        let v = match read_i32(bytes, pos) {
            Some(v) => v,
            None => {
                proof {
                    assert(dec_items(bytes@, pre_pos, n - k, dc) is None);
                }
                return None;
            },
        };
        let ghost pre_chain = chain@;
        chain.push(v);
        proof {
            let tail = dec_items(bytes@, *pos as int, n - k - 1, dc);
            assert(dec_items(bytes@, pre_pos, n - k, dc) == (match tail {
                Some((vs, e)) => Some((seq![v] + vs, e)),
                None => None::<(Seq<i32>, int)>,
            }));
            if tail is Some {
                let (vs, e) = tail.unwrap();
                assert(pre_chain + (seq![v] + vs) =~= chain@ + vs);
            }
        }
        k = k + 1;
    }
    proof {
        assert(dec_items(bytes@, *pos as int, 0, dc) == Some((Seq::<i32>::empty(), *pos as int)));
        assert(chain@ + Seq::<i32>::empty() =~= chain@);
    }
    let mut a = crate::object::Ai::Basic;
    let mut k2: usize = chain.len();
    while k2 > 0
        invariant
            k2 <= chain@.len(),
            ai_view(a) == chain@.subrange(k2 as int, chain@.len() as int),
        decreases k2,
    {
        k2 = k2 - 1;
        let turns = chain[k2];
        a = crate::object::Ai::Confused { previous_ai: Box::new(a), num_turns: turns };
        proof {
            assert(ai_view(a) =~= chain@.subrange(k2 as int, chain@.len() as int));
        }
    }
    proof {
        assert(chain@.subrange(0, chain@.len() as int) =~= chain@);
    }
    Some(a)
}

#[verifier::rlimit(100)]
#[verifier::spinoff_prover]
fn read_obj(bytes: &Vec<u8>, pos: &mut usize) -> (r: Option<crate::object::Object>)
    ensures
        (match r {
            Some(o) => dec_obj(bytes@, *old(pos) as int) == Some((obj_view(o), *final(pos) as int))
                && *final(pos) <= bytes@.len() && *old(pos) <= *final(pos),
            None => dec_obj(bytes@, *old(pos) as int) is None,
        }),
{
    let x = match read_i32(bytes, pos) {
        Some(v) => v,
        None => {
            return None;
        },
    };
    let y = match read_i32(bytes, pos) {
        Some(v) => v,
        None => {
            return None;
        },
    };
    let glyph = match read_char(bytes, pos) {
        Some(v) => v,
        None => {
            return None;
        },
    };
    let color = match read_color(bytes, pos) {
        Some(v) => v,
        None => {
            return None;
        },
    };
    let name = match read_str(bytes, pos) {
        Some(v) => v,
        None => {
            return None;
        },
    };
    let blocks = match read_bool(bytes, pos) {
        Some(v) => v,
        None => {
            return None;
        },
    };
    let alive = match read_bool(bytes, pos) {
        Some(v) => v,
        None => {
            return None;
        },
    };
    let ghost fpos = *pos as int;
    let tag_f = match read_u8(bytes, pos) {
        Some(v) => v,
        None => {
            return None;
        },
    };
    let fighter: Option<crate::object::Fighter> = if tag_f == 0 {
        None
    } else if tag_f == 1 {
        match read_fighter(bytes, pos) {
            Some(v) => Some(v),
            None => {
                return None;
            },
        }
    } else {
        return None;
    };
    proof {
        assert(dec_opt(bytes@, fpos, |s2: Seq<u8>, i2: int| dec_fighter(s2, i2)) == Some(
            (fighter, *pos as int),
        ));
    }
    let ghost apos = *pos as int;
    let tag_a = match read_u8(bytes, pos) {
        Some(v) => v,
        None => {
            return None;
        },
    };
    let ai: Option<crate::object::Ai> = if tag_a == 0 {
        None
    } else if tag_a == 1 {
        match read_ai(bytes, pos) {
            Some(v) => Some(v),
            None => {
                return None;
            },
        }
    } else {
        return None;
    };
    proof {
        assert(dec_opt(bytes@, apos, |s2: Seq<u8>, i2: int| dec_ai(s2, i2)) == Some(
            (
                (match ai {
                    Option::Some(a) => Option::Some(ai_view(a)),
                    Option::None => Option::None,
                }),
                *pos as int,
            ),
        ));
    }
    let ghost ipos = *pos as int;
    let tag_i = match read_u8(bytes, pos) {
        Some(v) => v,
        None => {
            return None;
        },
    };
    let item: Option<crate::object::Item> = if tag_i == 0 {
        None
    } else if tag_i == 1 {
        match read_item(bytes, pos) {
            Some(v) => Some(v),
            None => {
                return None;
            },
        }
    } else {
        return None;
    };
    proof {
        assert(dec_opt(bytes@, ipos, |s2: Seq<u8>, i2: int| dec_item(s2, i2)) == Some(
            (item, *pos as int),
        ));
    }
    let always_visible = match read_bool(bytes, pos) {
        Some(v) => v,
        None => {
            return None;
        },
    };
    let level = match read_i32(bytes, pos) {
        Some(v) => v,
        None => {
            return None;
        },
    };
    let ghost epos = *pos as int;
    let tag_e = match read_u8(bytes, pos) {
        Some(v) => v,
        None => {
            return None;
        },
    };
    let equipment: Option<crate::object::Equipment> = if tag_e == 0 {
        None
    } else if tag_e == 1 {
        match read_equipment(bytes, pos) {
            Some(v) => Some(v),
            None => {
                return None;
            },
        }
    } else {
        return None;
    };
    proof {
        assert(dec_opt(bytes@, epos, |s2: Seq<u8>, i2: int| dec_equipment(s2, i2)) == Some(
            (equipment, *pos as int),
        ));
    }
    let o = crate::object::Object {
        x,
        y,
        glyph,
        color,
        name,
        blocks,
        alive,
        fighter,
        ai,
        item,
        always_visible,
        level,
        equipment,
    };
    Some(o)
}

#[verifier::loop_isolation(false)]
fn read_objs(bytes: &Vec<u8>, pos: &mut usize) -> (r: Option<Vec<crate::object::Object>>)
    ensures
        (match r {
            Some(objs) => dec_objs(bytes@, *old(pos) as int) == Some(
                (objs@.map_values(|o: crate::object::Object| obj_view(o)), *final(pos) as int),
            ) && *final(pos) <= bytes@.len() && *old(pos) <= *final(pos),
            None => dec_objs(bytes@, *old(pos) as int) is None,
        }),
{
    let ghost dc = |s2: Seq<u8>, i2: int| dec_obj(s2, i2);
    let n64 = match read_u64(bytes, pos) {
        Some(v) => v,
        None => {
            return None;
        },
    };
    let ghost j0 = *pos as int;
    let blen = bytes.len();
    if n64 > (usize::MAX as u64) {
        proof {
            if dec_items(bytes@, j0, n64 as int, dc) is Some {
                assert forall|i2: int|
                    (#[trigger] dc(bytes@, i2)) is Some implies dc(bytes@, i2).unwrap().1 >= i2 + 1
                        && dc(bytes@, i2).unwrap().1 <= bytes@.len() by {
                    lemma_dec_obj_shape(bytes@, i2);
                }
                lemma_dec_items_lower(bytes@, j0, n64 as int, dc);
                assert(bytes@.len() == blen);
                assert(false);
            }
        }
        return None;
    }
    let n = n64 as usize;
    let mut objs: Vec<crate::object::Object> = Vec::new();
    let mut k: usize = 0;
    while k < n
        invariant
            k <= n,
            *pos <= bytes@.len(),
            j0 <= *pos as int,
            objs@.len() == k,
            dec_items(bytes@, j0, n as int, dc) == (match dec_items(
                bytes@,
                *pos as int,
                n - k,
                dc,
            ) {
                Some((rest, e)) => Some(
                    (objs@.map_values(|o: crate::object::Object| obj_view(o)) + rest, e),
                ),
                None => None::<(Seq<ObjM>, int)>,
            }),
        decreases n - k,
    {
        let ghost pre_pos = *pos as int;
        let o = match read_obj(bytes, pos) {
            Some(o) => o,
            None => {
                proof {
                    assert(dec_items(bytes@, pre_pos, n - k, dc) is None);
                }
                return None;
            },
        };
        let ghost pre_models = objs@.map_values(|o2: crate::object::Object| obj_view(o2));
        let ghost ov = obj_view(o);
        objs.push(o);
        proof {
            let tail = dec_items(bytes@, *pos as int, n - k - 1, dc);
            assert(dec_items(bytes@, pre_pos, n - k, dc) == (match tail {
                Some((vs, e)) => Some((seq![ov] + vs, e)),
                None => None::<(Seq<ObjM>, int)>,
            }));
            assert(objs@.map_values(|o2: crate::object::Object| obj_view(o2)) =~= pre_models.push(
                ov,
            ));
            if tail is Some {
                let (vs, e) = tail.unwrap();
                assert(pre_models + (seq![ov] + vs) =~= pre_models.push(ov) + vs);
            }
        }
        k = k + 1;
    }
    proof {
        assert(dec_items(bytes@, *pos as int, 0, dc) == Some((Seq::<ObjM>::empty(), *pos as int)));
        assert(objs@.map_values(|o2: crate::object::Object| obj_view(o2)) + Seq::<ObjM>::empty()
            =~= objs@.map_values(|o2: crate::object::Object| obj_view(o2)));
    }
    Some(objs)
}

/// Any decoder that strictly advances within bounds can succeed at
/// most once per remaining byte.
pub proof fn lemma_dec_items_lower<A>(s: Seq<u8>, i: int, n: int, dec: spec_fn(Seq<u8>, int) -> Option<(A, int)>)
    requires
        n > s.len() - i,
        n > 0,
        forall|i2: int|
            (#[trigger] dec(s, i2)) is Some ==> dec(s, i2).unwrap().1 >= i2 + 1 && dec(
                s,
                i2,
            ).unwrap().1 <= s.len(),
    ensures
        dec_items(s, i, n, dec) is None,
    decreases n,
{
    if dec(s, i) is Some {
        let j = dec(s, i).unwrap().1;
        if dec_items(s, i, n, dec) is Some {
            lemma_dec_items_lower(s, j, n - 1, dec);
        }
    }
}

/// A successful object decode always lands further on, within bounds.
pub proof fn lemma_dec_obj_shape(s: Seq<u8>, i: int)
    ensures
        (dec_obj(s, i) matches Some(p) ==> p.1 >= i + 1 && p.1 <= s.len()),
{
    broadcast use lemma_enc_u32_len, lemma_dec_u32_shape;

    if dec_obj(s, i) is Some {
        lemma_dec_str_shape(s, i + 15);
        let j5 = dec_str(s, i + 15).unwrap().1;
        lemma_dec_opt_shape_fighter(s, j5 + 2);
        let j8 = dec_opt(s, j5 + 2, |s2: Seq<u8>, i2: int| dec_fighter(s2, i2)).unwrap().1;
        lemma_dec_opt_shape_ai(s, j8);
        let j9 = dec_opt(s, j8, |s2: Seq<u8>, i2: int| dec_ai(s2, i2)).unwrap().1;
        let j10 = dec_opt(s, j9, |s2: Seq<u8>, i2: int| dec_item(s2, i2)).unwrap().1;
        let j13 = dec_opt(s, j10 + 5, |s2: Seq<u8>, i2: int| dec_equipment(s2, i2)).unwrap().1;
    }
}

/// Successful string decodes move forward within bounds.
pub proof fn lemma_dec_str_shape(s: Seq<u8>, i: int)
    ensures
        (dec_str(s, i) matches Some(p) ==> p.1 >= i + 8 && p.1 <= s.len()),
{
    broadcast use lemma_enc_u32_len, lemma_dec_u32_shape;

    if dec_str(s, i) is Some {
        let n = dec_u64(s, i).unwrap().0;
        lemma_dec_items_forward(s, i + 8, n as int, |s2: Seq<u8>, i2: int| dec_char(s2, i2));
    }
}

/// Successful AI-chain decodes move forward within bounds.
pub proof fn lemma_dec_ai_shape(s: Seq<u8>, i: int)
    ensures
        (dec_ai(s, i) matches Some(p) ==> p.1 >= i + 8 && p.1 <= s.len()),
{
    broadcast use lemma_enc_u32_len, lemma_dec_u32_shape;

    if dec_ai(s, i) is Some {
        let n = dec_u64(s, i).unwrap().0;
        lemma_dec_items_forward(s, i + 8, n as int, |s2: Seq<u8>, i2: int| dec_i32(s2, i2));
    }
}

pub proof fn lemma_dec_opt_shape_fighter(s: Seq<u8>, i: int)
    ensures
        (dec_opt(s, i, |s2: Seq<u8>, i2: int| dec_fighter(s2, i2)) matches Some(p) ==> p.1 >= i + 1
            && p.1 <= s.len()),
{
    broadcast use lemma_enc_u32_len, lemma_dec_u32_shape;

}

pub proof fn lemma_dec_opt_shape_ai(s: Seq<u8>, i: int)
    ensures
        (dec_opt(s, i, |s2: Seq<u8>, i2: int| dec_ai(s2, i2)) matches Some(p) ==> p.1 >= i + 1
            && p.1 <= s.len()),
{
    broadcast use lemma_enc_u32_len, lemma_dec_u32_shape;

    let da = |s2: Seq<u8>, i2: int| dec_ai(s2, i2);
    if dec_opt(s, i, da) is Some && 0 <= i < s.len() && s[i] == 1 {
        lemma_dec_ai_shape(s, i + 1);
    }
}

/// Decoding a run of values with a forward-moving decoder moves
/// forward within bounds.
pub proof fn lemma_dec_items_forward<A>(s: Seq<u8>, i: int, n: int, dec: spec_fn(Seq<u8>, int) -> Option<(A, int)>)
    requires
        forall|i2: int|
            (#[trigger] dec(s, i2)) is Some ==> dec(s, i2).unwrap().1 >= i2 && dec(
                s,
                i2,
            ).unwrap().1 <= s.len(),
    ensures
        (dec_items(s, i, n, dec) matches Some(p) ==> p.1 >= i && (n > 0 ==> p.1 <= s.len())),
    decreases (if n > 0 { n } else { 0 }),
{
    if n > 0 && dec_items(s, i, n, dec) is Some {
        let j = dec(s, i).unwrap().1;
        lemma_dec_items_forward(s, j, n - 1, dec);
    }
}

#[verifier::loop_isolation(false)]
fn read_col(bytes: &Vec<u8>, pos: &mut usize) -> (r: Option<Vec<crate::tile::Tile>>)
    ensures
        (match r {
            Some(col) => dec_col(bytes@, *old(pos) as int) == Some((col@, *final(pos) as int))
                && *final(pos) <= bytes@.len() && *old(pos) <= *final(pos),
            None => dec_col(bytes@, *old(pos) as int) is None,
        }),
{
    let ghost dc = |s2: Seq<u8>, i2: int| dec_tile(s2, i2);
    let n64 = match read_u64(bytes, pos) {
        Some(v) => v,
        None => {
            return None;
        },
    };
    let ghost j0 = *pos as int;
    let blen = bytes.len();
    if n64 > (usize::MAX as u64) {
        proof {
            if dec_items(bytes@, j0, n64 as int, dc) is Some {
                assert forall|i2: int|
                    (#[trigger] dc(bytes@, i2)) is Some implies dc(bytes@, i2).unwrap().1 >= i2 + 1
                        && dc(bytes@, i2).unwrap().1 <= bytes@.len() by {}
                lemma_dec_items_lower(bytes@, j0, n64 as int, dc);
                assert(bytes@.len() == blen);
                assert(false);
            }
        }
        return None;
    }
    let n = n64 as usize;
    let mut col: Vec<crate::tile::Tile> = Vec::new();
    let mut k: usize = 0;
    while k < n
        invariant
            k <= n,
            *pos <= bytes@.len(),
            j0 <= *pos as int,
            col@.len() == k,
            dec_items(bytes@, j0, n as int, dc) == (match dec_items(
                bytes@,
                *pos as int,
                n - k,
                dc,
            ) {
                Some((rest, e)) => Some((col@ + rest, e)),
                None => None::<(Seq<crate::tile::Tile>, int)>,
            }),
        decreases n - k,
    {
        let ghost pre_pos = *pos as int;
        let t = match read_tile(bytes, pos) {
            Some(t) => t,
            None => {
                proof {
                    assert(dec_items(bytes@, pre_pos, n - k, dc) is None);
                }
                return None;
            },
        };
        let ghost pre_col = col@;
        col.push(t);
        proof {
            let tail = dec_items(bytes@, *pos as int, n - k - 1, dc);
            assert(dec_items(bytes@, pre_pos, n - k, dc) == (match tail {
                Some((vs, e)) => Some((seq![t] + vs, e)),
                None => None::<(Seq<crate::tile::Tile>, int)>,
            }));
            if tail is Some {
                let (vs, e) = tail.unwrap();
                assert(pre_col + (seq![t] + vs) =~= col@ + vs);
            }
        }
        k = k + 1;
    }
    proof {
        assert(dec_items(bytes@, *pos as int, 0, dc) == Some(
            (Seq::<crate::tile::Tile>::empty(), *pos as int),
        ));
        assert(col@ + Seq::<crate::tile::Tile>::empty() =~= col@);
    }
    Some(col)
}

#[verifier::loop_isolation(false)]
fn read_grid(bytes: &Vec<u8>, pos: &mut usize) -> (r: Option<crate::tile::Grid>)
    ensures
        (match r {
            Some(grid) => dec_grid(bytes@, *old(pos) as int) == Some(
                (crate::mapgen::gv(grid), *final(pos) as int),
            ) && *final(pos) <= bytes@.len() && *old(pos) <= *final(pos),
            None => dec_grid(bytes@, *old(pos) as int) is None,
        }),
{
    let ghost dc = |s2: Seq<u8>, i2: int| dec_col(s2, i2);
    let n64 = match read_u64(bytes, pos) {
        Some(v) => v,
        None => {
            return None;
        },
    };
    let ghost j0 = *pos as int;
    let blen = bytes.len();
    if n64 > (usize::MAX as u64) {
        proof {
            if dec_items(bytes@, j0, n64 as int, dc) is Some {
                assert forall|i2: int|
                    (#[trigger] dc(bytes@, i2)) is Some implies dc(bytes@, i2).unwrap().1 >= i2 + 1
                        && dc(bytes@, i2).unwrap().1 <= bytes@.len() by {
                    lemma_dec_col_shape(bytes@, i2);
                }
                lemma_dec_items_lower(bytes@, j0, n64 as int, dc);
                assert(bytes@.len() == blen);
                assert(false);
            }
        }
        return None;
    }
    let n = n64 as usize;
    let mut grid: crate::tile::Grid = Vec::new();
    let mut k: usize = 0;
    while k < n
        invariant
            k <= n,
            *pos <= bytes@.len(),
            j0 <= *pos as int,
            grid@.len() == k,
            dec_items(bytes@, j0, n as int, dc) == (match dec_items(
                bytes@,
                *pos as int,
                n - k,
                dc,
            ) {
                Some((rest, e)) => Some((crate::mapgen::gv(grid) + rest, e)),
                None => None::<(Seq<Seq<crate::tile::Tile>>, int)>,
            }),
        decreases n - k,
    {
        let ghost pre_pos = *pos as int;
        let column = match read_col(bytes, pos) {
            Some(c) => c,
            None => {
                proof {
                    assert(dec_items(bytes@, pre_pos, n - k, dc) is None);
                }
                return None;
            },
        };
        let ghost pre_g = crate::mapgen::gv(grid);
        let ghost colv = column@;
        grid.push(column);
        proof {
            let tail = dec_items(bytes@, *pos as int, n - k - 1, dc);
            assert(dec_items(bytes@, pre_pos, n - k, dc) == (match tail {
                Some((vs, e)) => Some((seq![colv] + vs, e)),
                None => None::<(Seq<Seq<crate::tile::Tile>>, int)>,
            }));
            assert(crate::mapgen::gv(grid) =~= pre_g.push(colv));
            if tail is Some {
                let (vs, e) = tail.unwrap();
                assert(pre_g + (seq![colv] + vs) =~= pre_g.push(colv) + vs);
            }
        }
        k = k + 1;
    }
    proof {
        assert(dec_items(bytes@, *pos as int, 0, dc) == Some(
            (Seq::<Seq<crate::tile::Tile>>::empty(), *pos as int),
        ));
        assert(crate::mapgen::gv(grid) + Seq::<Seq<crate::tile::Tile>>::empty()
            =~= crate::mapgen::gv(grid));
    }
    Some(grid)
}

/// A successful column decode moves forward within bounds.
pub proof fn lemma_dec_col_shape(s: Seq<u8>, i: int)
    ensures
        (dec_col(s, i) matches Some(p) ==> p.1 >= i + 8 && p.1 <= s.len()),
{
    broadcast use lemma_enc_u32_len, lemma_dec_u32_shape;

    if dec_col(s, i) is Some {
        let n = dec_u64(s, i).unwrap().0;
        lemma_dec_items_forward(s, i + 8, n as int, |s2: Seq<u8>, i2: int| dec_tile(s2, i2));
    }
}

#[verifier::loop_isolation(false)]
fn read_log(bytes: &Vec<u8>, pos: &mut usize) -> (r: Option<crate::game::Messages>)
    ensures
        (match r {
            Some(log) => dec_log(bytes@, *old(pos) as int) == Some(
                (
                    log@.map_values(|e: (String, crate::object::Color)| (e.0@, e.1)),
                    *final(pos) as int,
                ),
            ) && *final(pos) <= bytes@.len() && *old(pos) <= *final(pos),
            None => dec_log(bytes@, *old(pos) as int) is None,
        }),
{
    let ghost dc = |s2: Seq<u8>, i2: int| dec_entry(s2, i2);
    let n64 = match read_u64(bytes, pos) {
        Some(v) => v,
        None => {
            return None;
        },
    };
    let ghost j0 = *pos as int;
    let blen = bytes.len();
    if n64 > (usize::MAX as u64) {
        proof {
            if dec_items(bytes@, j0, n64 as int, dc) is Some {
                assert forall|i2: int|
                    (#[trigger] dc(bytes@, i2)) is Some implies dc(bytes@, i2).unwrap().1 >= i2 + 1
                        && dc(bytes@, i2).unwrap().1 <= bytes@.len() by {
                    lemma_dec_str_shape(bytes@, i2);
                }
                lemma_dec_items_lower(bytes@, j0, n64 as int, dc);
                assert(bytes@.len() == blen);
                assert(false);
            }
        }
        return None;
    }
    let n = n64 as usize;
    let mut log: crate::game::Messages = Vec::new();
    let mut k: usize = 0;
    while k < n
        invariant
            k <= n,
            *pos <= bytes@.len(),
            j0 <= *pos as int,
            log@.len() == k,
            dec_items(bytes@, j0, n as int, dc) == (match dec_items(
                bytes@,
                *pos as int,
                n - k,
                dc,
            ) {
                Some((rest, e)) => Some(
                    (
                        log@.map_values(|e2: (String, crate::object::Color)| (e2.0@, e2.1)) + rest,
                        e,
                    ),
                ),
                None => None::<(Seq<(Seq<char>, crate::object::Color)>, int)>,
            }),
        decreases n - k,
    {
        let ghost pre_pos = *pos as int;
        let text = match read_str(bytes, pos) {
            Some(v) => v,
            None => {
                proof {
                    assert(dec_entry(bytes@, pre_pos) is None);
                    assert(dec_items(bytes@, pre_pos, n - k, dc) is None);
                }
                return None;
            },
        };
        let color = match read_color(bytes, pos) {
            Some(v) => v,
            None => {
                proof {
                    assert(dec_entry(bytes@, pre_pos) is None);
                    assert(dec_items(bytes@, pre_pos, n - k, dc) is None);
                }
                return None;
            },
        };
        let ghost pre_models = log@.map_values(|e2: (String, crate::object::Color)| (e2.0@, e2.1));
        let ghost tv = text@;
        log.push((text, color));
        proof {
            assert(dec_entry(bytes@, pre_pos) == Some(((tv, color), *pos as int)));
            let tail = dec_items(bytes@, *pos as int, n - k - 1, dc);
            assert(dec_items(bytes@, pre_pos, n - k, dc) == (match tail {
                Some((vs, e)) => Some((seq![(tv, color)] + vs, e)),
                None => None::<(Seq<(Seq<char>, crate::object::Color)>, int)>,
            }));
            assert(log@.map_values(|e2: (String, crate::object::Color)| (e2.0@, e2.1))
                =~= pre_models.push((tv, color)));
            if tail is Some {
                let (vs, e) = tail.unwrap();
                assert(pre_models + (seq![(tv, color)] + vs) =~= pre_models.push((tv, color)) + vs);
            }
        }
        k = k + 1;
    }
    proof {
        assert(dec_items(bytes@, *pos as int, 0, dc) == Some(
            (Seq::<(Seq<char>, crate::object::Color)>::empty(), *pos as int),
        ));
        assert(log@.map_values(|e2: (String, crate::object::Color)| (e2.0@, e2.1)) + Seq::<
            (Seq<char>, crate::object::Color),
        >::empty() =~= log@.map_values(|e2: (String, crate::object::Color)| (e2.0@, e2.1)));
    }
    Some(log)
}

/// Restores a saved world from one byte record: the entity list and
/// the aggregate state, exactly as `dec_world` describes, with the
/// whole record consumed. A corrupt, truncated or over-long record
/// comes back as nothing, with no state touched.
pub fn decode_world(bytes: &Vec<u8>) -> (r: Option<(Vec<crate::object::Object>, crate::game::Game)>)
    ensures
        (match r {
            Some(w) => (dec_world(bytes@, 0) matches Some(p) && p.0 == world_view(w.0@, w.1) && p.1
                == bytes@.len()),
            None => (match dec_world(bytes@, 0) {
                Some(p) => p.1 != bytes@.len(),
                None => true,
            }),
        }),
{
    let mut pos: usize = 0;
    let objects = match read_objs(bytes, &mut pos) {
        Some(v) => v,
        None => {
            return None;
        },
    };
    let grid = match read_grid(bytes, &mut pos) {
        Some(v) => v,
        None => {
            return None;
        },
    };
    let log = match read_log(bytes, &mut pos) {
        Some(v) => v,
        None => {
            return None;
        },
    };
    let inventory = match read_objs(bytes, &mut pos) {
        Some(v) => v,
        None => {
            return None;
        },
    };
    let dungeon_level = match read_u32(bytes, &mut pos) {
        Some(v) => v,
        None => {
            return None;
        },
    };
    if pos != bytes.len() {
        return None;
    }
    let game = crate::game::Game { grid, log, inventory, dungeon_level };
    Some((objects, game))
}

} // verus!
