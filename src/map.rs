use vstd::prelude::*;

use crate::chunk::Chunk;
use crate::world::{has_origin, origins_aligned, origins_distinct, tile_counts_ok, World, WorldError};

verus! {

/// `pat` occurs in `h` at `i`, ending at or before `hi`.
pub open spec fn occurs_at(h: Seq<u8>, i: int, hi: int, pat: Seq<u8>) -> bool {
    &&& 0 <= i
    &&& i + pat.len() <= hi
    &&& hi <= h.len()
    &&& h.subrange(i, i + pat.len()) == pat
}

/// First index `i >= from` at which `pat` occurs in `h[..hi]`.
pub open spec fn find_spec(h: Seq<u8>, from: int, hi: int, pat: Seq<u8>) -> Option<int>
    decreases hi - from,
{
    if from < 0 || from >= hi || from + pat.len() > hi || hi > h.len() {
        None
    } else if occurs_at(h, from, hi, pat) {
        Some(from)
    } else {
        find_spec(h, from + 1, hi, pat)
    }
}

/// ASCII whitespace: tab, line feed, vertical tab, form feed, carriage return, space.
pub open spec fn is_space(b: u8) -> bool {
    b == 9 || b == 10 || b == 11 || b == 12 || b == 13 || b == 32
}

/// Start of `h[lo..hi]` with leading whitespace skipped.
pub open spec fn trim_start(h: Seq<u8>, lo: int, hi: int) -> int
    decreases hi - lo,
{
    if lo >= hi {
        lo
    } else if is_space(h[lo]) {
        trim_start(h, lo + 1, hi)
    } else {
        lo
    }
}

/// End of `h[lo..hi]` with trailing whitespace dropped.
pub open spec fn trim_end(h: Seq<u8>, lo: int, hi: int) -> int
    decreases hi - lo,
{
    if lo >= hi {
        hi
    } else if is_space(h[hi - 1]) {
        trim_end(h, lo, hi - 1)
    } else {
        hi
    }
}

pub open spec fn is_digit(b: u8) -> bool {
    48 <= b <= 57
}

/// `h[lo..hi]` is a non-empty run of decimal digits.
pub open spec fn all_digits(h: Seq<u8>, lo: int, hi: int) -> bool {
    lo < hi && forall|i: int| lo <= i < hi ==> is_digit(#[trigger] h[i])
}

/// Decimal value of the digits `h[lo..hi]`.
pub open spec fn digits_value(h: Seq<u8>, lo: int, hi: int) -> int
    decreases hi - lo,
{
    if hi <= lo {
        0
    } else {
        digits_value(h, lo, hi - 1) * 10 + (h[hi - 1] - 48)
    }
}

/// `h[lo..hi]` read as a decimal `i16` with an optional sign: `None` when it
/// is not one, or is out of range.
pub open spec fn int_spec(h: Seq<u8>, lo: int, hi: int) -> Option<i16> {
    if lo < hi && (h[lo] == 45 || h[lo] == 43) {
        if all_digits(h, lo + 1, hi) {
            let v = if h[lo] == 45 {
                -digits_value(h, lo + 1, hi)
            } else {
                digits_value(h, lo + 1, hi)
            };
            if -32768 <= v <= 32767 {
                Some(v as i16)
            } else {
                None
            }
        } else {
            None
        }
    } else if all_digits(h, lo, hi) && digits_value(h, lo, hi) <= 32767 {
        Some(digits_value(h, lo, hi) as i16)
    } else {
        None
    }
}

/// `h[lo..hi]`, surrounding whitespace dropped, read as an `i16`.
pub open spec fn field_spec(h: Seq<u8>, lo: int, hi: int) -> Option<i16> {
    let a = trim_start(h, lo, hi);
    int_spec(h, a, trim_end(h, a, hi))
}

/// Whether `pat` occurs in `h` at `i`, ending at or before `hi`.
fn occurs_at_exec(h: &[u8], i: usize, hi: usize, pat: &[u8]) -> (r: bool)
    requires
        hi <= h@.len(),
    ensures
        r == occurs_at(h@, i as int, hi as int, pat@),
{
    if i > hi || pat.len() > hi - i {
        return false;
    }
    let mut k: usize = 0;
    while k < pat.len()
        invariant
            i + pat@.len() <= hi <= h@.len(),
            0 <= k <= pat@.len(),
            forall|j: int| 0 <= j < k ==> h@[i + j] == pat@[j],
        decreases pat@.len() - k,
    {
        if h[i + k] != pat[k] {
            assert(h@.subrange(i as int, i + pat@.len())[k as int] != pat@[k as int]);
            return false;
        }
        k += 1;
    }
    assert(h@.subrange(i as int, i + pat@.len()) =~= pat@);
    true
}

/// First index at or after `from` at which `pat` occurs in `h[..hi]`.
pub fn find(h: &[u8], from: usize, hi: usize, pat: &[u8]) -> (r: Option<usize>)
    requires
        hi <= h@.len(),
    ensures
        r matches Some(i) ==> find_spec(h@, from as int, hi as int, pat@) == Some(i as int),
        r is None ==> find_spec(h@, from as int, hi as int, pat@) is None,
{
    let mut i = from;
    while i < hi && pat.len() <= hi - i
        invariant
            hi <= h@.len(),
            from <= i,
            find_spec(h@, from as int, hi as int, pat@) == find_spec(h@, i as int, hi as int, pat@),
        decreases hi - i + 1,
    {
        if occurs_at_exec(h, i, hi, pat) {
            return Some(i);
        }
        i += 1;
    }
    None
}

fn trim_start_exec(h: &[u8], lo: usize, hi: usize) -> (r: usize)
    requires
        lo <= hi <= h@.len(),
    ensures
        r == trim_start(h@, lo as int, hi as int),
        lo <= r <= hi,
{
    let mut i = lo;
    while i < hi && (h[i] == 9 || h[i] == 10 || h[i] == 11 || h[i] == 12 || h[i] == 13 || h[i]
        == 32)
        invariant
            lo <= i <= hi <= h@.len(),
            trim_start(h@, lo as int, hi as int) == trim_start(h@, i as int, hi as int),
        decreases hi - i,
    {
        i += 1;
    }
    i
}

fn trim_end_exec(h: &[u8], lo: usize, hi: usize) -> (r: usize)
    requires
        lo <= hi <= h@.len(),
    ensures
        r == trim_end(h@, lo as int, hi as int),
        lo <= r <= hi,
{
    let mut j = hi;
    while j > lo && (h[j - 1] == 9 || h[j - 1] == 10 || h[j - 1] == 11 || h[j - 1] == 12 || h[j
        - 1] == 13 || h[j - 1] == 32)
        invariant
            lo <= j <= hi <= h@.len(),
            trim_end(h@, lo as int, hi as int) == trim_end(h@, lo as int, j as int),
        decreases j - lo,
    {
        j -= 1;
    }
    j
}

proof fn lemma_digits_grow(h: Seq<u8>, lo: int, i: int, hi: int)
    requires
        lo <= i <= hi <= h.len(),
        forall|k: int| lo <= k < hi ==> is_digit(#[trigger] h[k]),
    ensures
        digits_value(h, lo, i) <= digits_value(h, lo, hi),
        0 <= digits_value(h, lo, i),
    decreases hi - i,
{
    if i < hi {
        lemma_digits_grow(h, lo, i, hi - 1);
        assert(is_digit(h[hi - 1]));
    } else {
        lemma_digits_nonneg(h, lo, i);
    }
}

proof fn lemma_digits_nonneg(h: Seq<u8>, lo: int, hi: int)
    requires
        lo <= hi <= h.len(),
        forall|k: int| lo <= k < hi ==> is_digit(#[trigger] h[k]),
    ensures
        0 <= digits_value(h, lo, hi),
    decreases hi - lo,
{
    if lo < hi {
        lemma_digits_nonneg(h, lo, hi - 1);
        assert(is_digit(h[hi - 1]));
    }
}

/// Value of the digit run `h[lo..hi]`, if it is one and is at most 32768.
fn small_digits(h: &[u8], lo: usize, hi: usize) -> (r: Option<i32>)
    requires
        lo <= hi <= h@.len(),
    ensures
        r matches Some(v) ==> all_digits(h@, lo as int, hi as int) && v == digits_value(
            h@,
            lo as int,
            hi as int,
        ) && 0 <= v <= 32768,
        r is None ==> !all_digits(h@, lo as int, hi as int) || digits_value(
            h@,
            lo as int,
            hi as int,
        ) > 32768,
{
    if lo == hi {
        return None;
    }
    let mut acc: i32 = 0;
    let mut i = lo;
    while i < hi
        invariant
            lo <= i <= hi <= h@.len(),
            forall|k: int| lo <= k < i ==> is_digit(#[trigger] h@[k]),
            acc == digits_value(h@, lo as int, i as int),
            0 <= acc <= 32768,
        decreases hi - i,
    {
        let b = h[i];
        if b < 48 || b > 57 {
            assert(!is_digit(h@[i as int]));
            return None;
        }
        let next = acc * 10 + (b - 48) as i32;
        if next > 32768 {
            proof {
                if all_digits(h@, lo as int, hi as int) {
                    lemma_digits_grow(h@, lo as int, i + 1, hi as int);
                }
            }
            return None;
        }
        acc = next;
        i += 1;
    }
    Some(acc)
}

/// `h[lo..hi]` read as a decimal `i16` with an optional sign.
pub fn parse_i16(h: &[u8], lo: usize, hi: usize) -> (r: Option<i16>)
    requires
        lo <= hi <= h@.len(),
    ensures
        r == int_spec(h@, lo as int, hi as int),
{
    if lo < hi && (h[lo] == 45 || h[lo] == 43) {
        match small_digits(h, lo + 1, hi) {
            Some(v) => {
                if h[lo] == 45 {
                    Some((-v) as i16)
                } else if v <= 32767 {
                    Some(v as i16)
                } else {
                    None
                }
            },
            None => None,
        }
    } else {
        match small_digits(h, lo, hi) {
            Some(v) => {
                if v <= 32767 {
                    Some(v as i16)
                } else {
                    None
                }
            },
            None => None,
        }
    }
}

/// `h[lo..hi]`, surrounding whitespace dropped, read as an `i16`.
pub fn parse_field(h: &[u8], lo: usize, hi: usize) -> (r: Option<i16>)
    requires
        lo <= hi <= h@.len(),
    ensures
        r == field_spec(h@, lo as int, hi as int),
{
    let a = trim_start_exec(h, lo, hi);
    let b = trim_end_exec(h, a, hi);
    parse_i16(h, a, b)
}

} // verus!

verus! {

/// A chunk as read from the map: origin and tiles.
pub type ChunkModel = (i16, i16, Seq<i16>);

/// `<chunk `
pub open spec fn chunk_open() -> Seq<u8> {
    seq![60u8, 99, 104, 117, 110, 107, 32]
}

/// `</chunk>`
pub open spec fn chunk_close() -> Seq<u8> {
    seq![60u8, 47, 99, 104, 117, 110, 107, 62]
}

/// `</layer>`
pub open spec fn layer_close() -> Seq<u8> {
    seq![60u8, 47, 108, 97, 121, 101, 114, 62]
}

/// ` name="`
pub open spec fn name_key() -> Seq<u8> {
    seq![32u8, 110, 97, 109, 101, 61, 34]
}

/// `x="`
pub open spec fn x_key() -> Seq<u8> {
    seq![120u8, 61, 34]
}

/// `y="`
pub open spec fn y_key() -> Seq<u8> {
    seq![121u8, 61, 34]
}

/// `"`
pub open spec fn quote() -> Seq<u8> {
    seq![34u8]
}

/// `>`
pub open spec fn gt() -> Seq<u8> {
    seq![62u8]
}

/// `,`
pub open spec fn comma() -> Seq<u8> {
    seq![44u8]
}

/// The value of attribute `key` (up to the next quote) in the tag `h[lo..hi]`.
pub open spec fn attr_spec(h: Seq<u8>, lo: int, hi: int, key: Seq<u8>) -> Option<i16> {
    match find_spec(h, lo, hi, key) {
        Some(k) => match find_spec(h, k + key.len(), hi, quote()) {
            Some(e) => int_spec(h, k + key.len(), e),
            None => None,
        },
        None => None,
    }
}

/// The `n` comma-separated fields of `h[lo..hi]`, each trimmed and read as
/// an `i16`; the last one runs to `hi`. `None` when there are fewer or more
/// fields, or one is not a number.
pub open spec fn fields_spec(h: Seq<u8>, lo: int, hi: int, n: nat) -> Option<Seq<i16>>
    decreases n,
{
    if n == 0 {
        Some(Seq::empty())
    } else {
        match find_spec(h, lo, hi, comma()) {
            Some(c) => if n == 1 {
                None
            } else {
                match (field_spec(h, lo, c), fields_spec(h, c + 1, hi, (n - 1) as nat)) {
                    (Some(v), Some(rest)) => Some(seq![v] + rest),
                    _ => None,
                }
            },
            None => if n == 1 {
                match field_spec(h, lo, hi) {
                    Some(v) => Some(seq![v]),
                    None => None,
                }
            } else {
                None
            },
        }
    }
}

/// The chunk in `h[lo..hi]`: a `<chunk ` tag up to `>` with the attributes
/// `x="..."` and `y="..."`, both multiples of 16, followed by exactly 256
/// comma-separated tile ids.
pub open spec fn chunk_spec(h: Seq<u8>, lo: int, hi: int) -> Option<ChunkModel> {
    match find_spec(h, lo, hi, chunk_open()) {
        Some(a) => match find_spec(h, a + 7, hi, gt()) {
            Some(g) => match (
                attr_spec(h, a + 7, g, x_key()),
                attr_spec(h, a + 7, g, y_key()),
                fields_spec(h, g + 1, hi, 256),
            ) {
                (Some(x), Some(y), Some(tiles)) => if x % 16 == 0 && y % 16 == 0 {
                    Some((x, y, tiles))
                } else {
                    None
                },
                _ => None,
            },
            None => None,
        },
        None => None,
    }
}

/// The chunks of `h[lo..hi]`: every piece that ends in `</chunk>` holds one;
/// what follows the last such piece is ignored.
pub open spec fn chunks_spec(h: Seq<u8>, lo: int, hi: int) -> Option<Seq<ChunkModel>>
    decreases hi - lo,
{
    if lo >= hi {
        Some(Seq::empty())
    } else {
        match find_spec(h, lo, hi, chunk_close()) {
            Some(e) => if e < lo || e + 8 > hi {
                None
            } else {
                match (chunk_spec(h, lo, e), chunks_spec(h, e + 8, hi)) {
                    (Some(c), Some(rest)) => Some(seq![c] + rest),
                    _ => None,
                }
            },
            None => Some(Seq::empty()),
        }
    }
}

/// The body of the layer whose name starts with `name`: from the end of its
/// opening tag to `</layer>`.
pub open spec fn layer_spec(h: Seq<u8>, name: Seq<u8>) -> Option<(int, int)> {
    let key = name_key() + name;
    match find_spec(h, 0, h.len() as int, key) {
        Some(a) => match find_spec(h, a + key.len(), h.len() as int, gt()) {
            Some(b) => match find_spec(h, b + 1, h.len() as int, layer_close()) {
                Some(c) => Some((b + 1, c)),
                None => None,
            },
            None => None,
        },
        None => None,
    }
}

/// The chunks of the layer whose name starts with `name`.
pub open spec fn layer_chunks(h: Seq<u8>, name: Seq<u8>) -> Option<Seq<ChunkModel>> {
    match layer_spec(h, name) {
        Some((lo, hi)) => chunks_spec(h, lo, hi),
        None => None,
    }
}

proof fn lemma_find_spec(h: Seq<u8>, from: int, hi: int, pat: Seq<u8>)
    ensures
        find_spec(h, from, hi, pat) matches Some(i) ==> from <= i && occurs_at(h, i, hi, pat),
    decreases hi - from,
{
    if !(from < 0 || from >= hi || from + pat.len() > hi || hi > h.len()) && !occurs_at(
        h,
        from,
        hi,
        pat,
    ) {
        lemma_find_spec(h, from + 1, hi, pat);
    }
}

fn bytes_chunk_open() -> (r: Vec<u8>)
    ensures
        r@ == chunk_open(),
{
    let r = vec![60u8, 99, 104, 117, 110, 107, 32];
    assert(r@ =~= chunk_open());
    r
}

fn bytes_chunk_close() -> (r: Vec<u8>)
    ensures
        r@ == chunk_close(),
{
    let r = vec![60u8, 47, 99, 104, 117, 110, 107, 62];
    assert(r@ =~= chunk_close());
    r
}

fn bytes_layer_close() -> (r: Vec<u8>)
    ensures
        r@ == layer_close(),
{
    let r = vec![60u8, 47, 108, 97, 121, 101, 114, 62];
    assert(r@ =~= layer_close());
    r
}

fn bytes_x_key() -> (r: Vec<u8>)
    ensures
        r@ == x_key(),
{
    let r = vec![120u8, 61, 34];
    assert(r@ =~= x_key());
    r
}

fn bytes_y_key() -> (r: Vec<u8>)
    ensures
        r@ == y_key(),
{
    let r = vec![121u8, 61, 34];
    assert(r@ =~= y_key());
    r
}

fn bytes_one(b: u8) -> (r: Vec<u8>)
    ensures
        r@ == seq![b],
{
    let r = vec![b];
    assert(r@ =~= seq![b]);
    r
}

/// The value of attribute `key` in the tag `h[lo..hi]`.
fn parse_attr(h: &[u8], lo: usize, hi: usize, key: &[u8]) -> (r: Option<i16>)
    requires
        hi <= h@.len(),
    ensures
        r == attr_spec(h@, lo as int, hi as int, key@),
{
    let q = bytes_one(34);
    assert(q@ == quote());
    match find(h, lo, hi, key) {
        Some(k) => {
            proof {
                lemma_find_spec(h@, lo as int, hi as int, key@);
            }
            let vs = k + key.len();
            match find(h, vs, hi, q.as_slice()) {
                Some(e) => {
                    proof {
                        lemma_find_spec(h@, vs as int, hi as int, quote());
                    }
                    parse_i16(h, vs, e)
                },
                None => None,
            }
        },
        None => None,
    }
}

/// The first `n` comma-separated fields of `h[lo..hi]` as `i16` values.
fn parse_fields(h: &[u8], lo: usize, hi: usize, n: usize) -> (r: Option<Vec<i16>>)
    requires
        lo <= hi <= h@.len(),
    ensures
        r matches Some(v) ==> fields_spec(h@, lo as int, hi as int, n as nat) == Some(v@),
        r is None ==> fields_spec(h@, lo as int, hi as int, n as nat) is None,
{
    let c = bytes_one(44);
    assert(c@ == comma());
    let mut acc: Vec<i16> = Vec::new();
    let mut cur = lo;
    while acc.len() < n
        invariant
            lo <= cur <= hi <= h@.len(),
            c@ == comma(),
            acc@.len() <= n,
            forall|rest: Seq<i16>|
                fields_spec(h@, cur as int, hi as int, (n - acc@.len()) as nat) == Some(rest)
                    ==> fields_spec(h@, lo as int, hi as int, n as nat) == Some(acc@ + rest),
            fields_spec(h@, cur as int, hi as int, (n - acc@.len()) as nat) is None
                ==> fields_spec(h@, lo as int, hi as int, n as nat) is None,
        decreases n - acc@.len(),
    {
        let ghost m = (n - acc@.len()) as nat;
        match find(h, cur, hi, c.as_slice()) {
            Some(k) => {
                proof {
                    lemma_find_spec(h@, cur as int, hi as int, comma());
                }
                if n - acc.len() == 1 {
                    return None;
                }
                match parse_field(h, cur, k) {
                    Some(v) => {
                        let ghost old_acc = acc@;
                        let ghost old_cur = cur as int;
                        acc.push(v);
                        cur = k + 1;
                        proof {
                            assert forall|rest: Seq<i16>|
                                fields_spec(h@, cur as int, hi as int, (n - acc@.len()) as nat)
                                    == Some(rest) implies fields_spec(
                                h@,
                                lo as int,
                                hi as int,
                                n as nat,
                            ) == Some(acc@ + rest) by {
                                assert(fields_spec(h@, old_cur, hi as int, m) == Some(
                                    seq![v] + rest,
                                ));
                                assert(old_acc + (seq![v] + rest) =~= acc@ + rest);
                            }
                        }
                    },
                    None => {
                        return None;
                    },
                }
            },
            None => {
                if n - acc.len() == 1 {
                    match parse_field(h, cur, hi) {
                        Some(v) => {
                            let ghost old_acc = acc@;
                            acc.push(v);
                            proof {
                                assert(fields_spec(h@, cur as int, hi as int, m) == Some(seq![v]));
                                assert(old_acc + seq![v] =~= acc@ + Seq::<i16>::empty());
                                assert(fields_spec(h@, cur as int, hi as int, 0) == Some(
                                    Seq::<i16>::empty(),
                                ));
                            }
                        },
                        None => {
                            return None;
                        },
                    }
                } else {
                    return None;
                }
            },
        }
    }
    proof {
        assert(fields_spec(h@, cur as int, hi as int, 0) == Some(Seq::<i16>::empty()));
        assert(acc@ + Seq::<i16>::empty() =~= acc@);
    }
    Some(acc)
}

} // verus!

verus! {

/// `cs` holds exactly the chunks `ms`, in order.
pub open spec fn models(cs: Seq<Chunk>, ms: Seq<ChunkModel>) -> bool {
    &&& cs.len() == ms.len()
    &&& forall|i: int|
        0 <= i < cs.len() ==> (#[trigger] cs[i]).x == ms[i].0 && cs[i].y == ms[i].1 && cs[i].tiles@
            == ms[i].2
}

proof fn lemma_fields_len(h: Seq<u8>, lo: int, hi: int, n: nat)
    ensures
        fields_spec(h, lo, hi, n) matches Some(v) ==> v.len() == n,
    decreases n,
{
    if n > 0 {
        if let Some(c) = find_spec(h, lo, hi, comma()) {
            lemma_fields_len(h, c + 1, hi, (n - 1) as nat);
        }
    }
}

/// The chunk in `h[lo..hi]`, or `None` when that text holds no valid chunk.
fn read_chunk(h: &[u8], lo: usize, hi: usize) -> (r: Option<Chunk>)
    requires
        lo <= hi <= h@.len(),
    ensures
        r matches Some(c) ==> chunk_spec(h@, lo as int, hi as int) == Some(
            (c.x, c.y, c.tiles@),
        ) && c.wf(),
        r is None ==> chunk_spec(h@, lo as int, hi as int) is None,
{
    let open = bytes_chunk_open();
    let close = bytes_one(62);
    assert(close@ == gt());
    let a = match find(h, lo, hi, open.as_slice()) {
        Some(a) => a,
        None => {
            return None;
        },
    };
    proof {
        lemma_find_spec(h@, lo as int, hi as int, chunk_open());
    }
    let ts = a + 7;
    let g = match find(h, ts, hi, close.as_slice()) {
        Some(g) => g,
        None => {
            return None;
        },
    };
    proof {
        lemma_find_spec(h@, ts as int, hi as int, gt());
        lemma_fields_len(h@, g + 1, hi as int, 256);
    }
    let xk = bytes_x_key();
    let yk = bytes_y_key();
    let x = parse_attr(h, ts, g, xk.as_slice());
    let y = parse_attr(h, ts, g, yk.as_slice());
    let tiles = parse_fields(h, g + 1, hi, 256);
    match (x, y, tiles) {
        (Some(x), Some(y), Some(tiles)) => {
            if x % 16 == 0 && y % 16 == 0 {
                Some(Chunk { x, y, tiles })
            } else {
                None
            }
        },
        _ => None,
    }
}

/// Whether `h[lo..hi]` holds a valid chunk (see `chunk_spec`).
pub fn chunk_ok(h: &[u8], lo: usize, hi: usize) -> (r: bool)
    requires
        lo <= hi <= h@.len(),
    ensures
        r == chunk_spec(h@, lo as int, hi as int) is Some,
{
    read_chunk(h, lo, hi).is_some()
}

/// The chunk in `h[lo..hi]` (see `chunk_spec`). Text that holds no valid
/// chunk (a malformed header, an origin off the chunk grid, not exactly 256
/// tile ids) is a configuration error: test it first with `chunk_ok`.
pub fn parse_chunk(h: &[u8], lo: usize, hi: usize) -> (r: Chunk)
    requires
        lo <= hi <= h@.len(),
        chunk_spec(h@, lo as int, hi as int) is Some,
    ensures
        chunk_spec(h@, lo as int, hi as int) == Some((r.x, r.y, r.tiles@)),
        r.wf(),
{
    match read_chunk(h, lo, hi) {
        Some(c) => c,
        None => vstd::pervasive::unreached(),
    }
}

/// The chunks of `h[lo..hi]` (see `chunks_spec`).
pub fn get_all_chunks(h: &[u8], lo: usize, hi: usize) -> (r: Option<Vec<Chunk>>)
    requires
        lo <= hi <= h@.len(),
    ensures
        r matches Some(v) ==> chunks_spec(h@, lo as int, hi as int) matches Some(ms) && models(
            v@,
            ms,
        ),
        r is None ==> chunks_spec(h@, lo as int, hi as int) is None,
        r matches Some(v) ==> forall|i: int| 0 <= i < v@.len() ==> (#[trigger] v@[i]).wf(),
{
    let close = bytes_chunk_close();
    let mut acc: Vec<Chunk> = Vec::new();
    let ghost mut pre: Seq<ChunkModel> = Seq::empty();
    let mut cur = lo;
    loop
        invariant
            lo <= cur <= hi <= h@.len(),
            close@ == chunk_close(),
            models(acc@, pre),
            forall|i: int| 0 <= i < acc@.len() ==> (#[trigger] acc@[i]).wf(),
            forall|rest: Seq<ChunkModel>|
                chunks_spec(h@, cur as int, hi as int) == Some(rest) ==> chunks_spec(
                    h@,
                    lo as int,
                    hi as int,
                ) == Some(pre + rest),
            chunks_spec(h@, cur as int, hi as int) is None ==> chunks_spec(
                h@,
                lo as int,
                hi as int,
            ) is None,
        ensures
            lo <= cur <= hi,
            models(acc@, pre),
            forall|i: int| 0 <= i < acc@.len() ==> (#[trigger] acc@[i]).wf(),
            chunks_spec(h@, lo as int, hi as int) == Some(pre),
        decreases hi - cur,
    {
        if cur >= hi {
            proof {
                assert(chunks_spec(h@, cur as int, hi as int) == Some(Seq::<ChunkModel>::empty()));
                assert(pre + Seq::<ChunkModel>::empty() =~= pre);
            }
            break ;
        }
        let e = match find(h, cur, hi, close.as_slice()) {
            Some(e) => e,
            None => {
                proof {
                    assert(chunks_spec(h@, cur as int, hi as int) == Some(Seq::<ChunkModel>::empty()));
                    assert(pre + Seq::<ChunkModel>::empty() =~= pre);
                }
                break ;
            },
        };
        proof {
            lemma_find_spec(h@, cur as int, hi as int, chunk_close());
        }
        if !chunk_ok(h, cur, e) {
            return None;
        }
        let c = parse_chunk(h, cur, e);
        let ghost m: ChunkModel = (c.x, c.y, c.tiles@);
        let ghost old_pre = pre;
        let ghost old_cur = cur as int;
        acc.push(c);
        proof {
            pre = pre.push(m);
            assert forall|i: int| 0 <= i < acc@.len() implies (#[trigger] acc@[i]).x
                == pre[i].0 && acc@[i].y == pre[i].1 && acc@[i].tiles@ == pre[i].2 by {}
        }
        cur = e + 8;
        proof {
            assert forall|rest: Seq<ChunkModel>|
                chunks_spec(h@, cur as int, hi as int) == Some(rest) implies chunks_spec(
                h@,
                lo as int,
                hi as int,
            ) == Some(pre + rest) by {
                assert(chunks_spec(h@, old_cur, hi as int) == Some(seq![m] + rest));
                assert(old_pre + (seq![m] + rest) =~= pre + rest);
            }
        }
    }
    Some(acc)
}

/// The body `(start, end)` of the layer whose name starts with `name` (see
/// `layer_spec`).
pub fn get_layer(h: &[u8], name: &[u8]) -> (r: Option<(usize, usize)>)
    ensures
        r matches Some((lo, hi)) ==> layer_spec(h@, name@) == Some((lo as int, hi as int)) && lo
            <= hi <= h@.len(),
        r is None ==> layer_spec(h@, name@) is None,
{
    let mut key: Vec<u8> = vec![32u8, 110, 97, 109, 101, 61, 34];
    assert(key@ =~= name_key() + name@.subrange(0, 0));
    let mut i: usize = 0;
    while i < name.len()
        invariant
            0 <= i <= name@.len(),
            key@ == name_key() + name@.subrange(0, i as int),
        decreases name@.len() - i,
    {
        key.push(name[i]);
        i += 1;
        assert(key@ =~= name_key() + name@.subrange(0, i as int));
    }
    assert(name@.subrange(0, name@.len() as int) =~= name@);
    let gt_pat = bytes_one(62);
    assert(gt_pat@ == gt());
    let end = bytes_layer_close();
    let a = match find(h, 0, h.len(), key.as_slice()) {
        Some(a) => a,
        None => {
            return None;
        },
    };
    proof {
        lemma_find_spec(h@, 0, h@.len() as int, key@);
    }
    let b = match find(h, a + key.len(), h.len(), gt_pat.as_slice()) {
        Some(b) => b,
        None => {
            return None;
        },
    };
    proof {
        lemma_find_spec(h@, a + key@.len(), h@.len() as int, gt());
    }
    match find(h, b + 1, h.len(), end.as_slice()) {
        Some(c) => {
            proof {
                lemma_find_spec(h@, b + 1, h@.len() as int, layer_close());
            }
            Some((b + 1, c))
        },
        None => None,
    }
}

} // verus!

verus! {

/// `Collision`
pub open spec fn collision_name() -> Seq<u8> {
    seq![67u8, 111, 108, 108, 105, 115, 105, 111, 110]
}

/// `Detail`
pub open spec fn detail_name() -> Seq<u8> {
    seq![68u8, 101, 116, 97, 105, 108]
}

/// `Background`
pub open spec fn background_name() -> Seq<u8> {
    seq![66u8, 97, 99, 107, 103, 114, 111, 117, 110, 100]
}

/// `Interactable`
pub open spec fn interactable_name() -> Seq<u8> {
    seq![73u8, 110, 116, 101, 114, 97, 99, 116, 97, 98, 108, 101]
}

/// All four layers are present in the map text.
pub open spec fn has_all_layers(h: Seq<u8>) -> bool {
    &&& layer_spec(h, collision_name()) is Some
    &&& layer_spec(h, detail_name()) is Some
    &&& layer_spec(h, background_name()) is Some
    &&& layer_spec(h, interactable_name()) is Some
}

/// The chunks of the four layers (collision, detail, background,
/// interactable), when every one of them reads.
pub open spec fn map_layers(h: Seq<u8>) -> Option<
    (Seq<ChunkModel>, Seq<ChunkModel>, Seq<ChunkModel>, Seq<ChunkModel>),
> {
    match (
        layer_chunks(h, collision_name()),
        layer_chunks(h, detail_name()),
        layer_chunks(h, background_name()),
        layer_chunks(h, interactable_name()),
    ) {
        (Some(a), Some(b), Some(c), Some(d)) => Some((a, b, c, d)),
        _ => None,
    }
}

pub open spec fn models_aligned(ms: Seq<ChunkModel>) -> bool {
    forall|i: int| 0 <= i < ms.len() ==> (#[trigger] ms[i]).0 % 16 == 0 && ms[i].1 % 16 == 0
}

pub open spec fn models_distinct(ms: Seq<ChunkModel>) -> bool {
    forall|i: int, j: int|
        0 <= i < ms.len() && 0 <= j < ms.len() && i != j ==> !((#[trigger] ms[i]).0 == (
        #[trigger] ms[j]).0 && ms[i].1 == ms[j].1)
}

/// Why map text does not describe a world.
#[derive(Clone, Copy, Debug, PartialEq, Eq, Structural)]
pub enum MapError {
    /// One of the four layers is missing.
    MissingLayer,
    /// A chunk has a malformed header, an origin off the chunk grid, or not
    /// exactly 256 readable tile ids.
    BadChunk,
    /// The chunks read do not form a valid world.
    Invalid(WorldError),
}

proof fn lemma_models_props(cs: Seq<Chunk>, ms: Seq<ChunkModel>)
    requires
        models(cs, ms),
        forall|i: int| 0 <= i < cs.len() ==> (#[trigger] cs[i]).tiles@.len() == 256,
    ensures
        tile_counts_ok(cs),
        origins_aligned(cs) <==> models_aligned(ms),
        origins_distinct(cs) <==> models_distinct(ms),
{
    if !models_aligned(ms) {
        let i = choose|i: int| 0 <= i < ms.len() && !((#[trigger] ms[i]).0 % 16 == 0 && ms[i].1 % 16 == 0);
        assert(cs[i].x == ms[i].0);
    }
    if !origins_aligned(cs) {
        let i = choose|i: int| 0 <= i < cs.len() && !((#[trigger] cs[i]).x % 16 == 0 && cs[i].y % 16 == 0);
        assert(cs[i].x == ms[i].0);
    }
    if !models_distinct(ms) {
        let (i, j) = choose|i: int, j: int|
            0 <= i < ms.len() && 0 <= j < ms.len() && i != j && ((#[trigger] ms[i]).0 == (
            #[trigger] ms[j]).0 && ms[i].1 == ms[j].1);
        assert(cs[i].x == ms[i].0 && cs[j].x == ms[j].0);
        assert(has_origin(cs, j, cs[i].x as int, cs[i].y as int));
    }
    if !origins_distinct(cs) {
        let (i, j) = choose|i: int, j: int|
            0 <= i < cs.len() && 0 <= j < cs.len() && i != j && has_origin(
                cs,
                j,
                cs[i].x as int,
                cs[i].y as int,
            );
        assert(cs[i].x == ms[i].0 && cs[j].x == ms[j].0);
    }
}

fn bytes_name(which: u8) -> (r: Vec<u8>)
    ensures
        which == 0 ==> r@ == collision_name(),
        which == 1 ==> r@ == detail_name(),
        which == 2 ==> r@ == background_name(),
        which == 3 ==> r@ == interactable_name(),
{
    let r = if which == 0 {
        vec![67u8, 111, 108, 108, 105, 115, 105, 111, 110]
    } else if which == 1 {
        vec![68u8, 101, 116, 97, 105, 108]
    } else if which == 2 {
        vec![66u8, 97, 99, 107, 103, 114, 111, 117, 110, 100]
    } else {
        vec![73u8, 110, 116, 101, 114, 97, 99, 116, 97, 98, 108, 101]
    };
    assert(which == 0 ==> r@ =~= collision_name());
    assert(which == 1 ==> r@ =~= detail_name());
    assert(which == 2 ==> r@ =~= background_name());
    assert(which == 3 ==> r@ =~= interactable_name());
    r
}

/// Reads a world from map text: four layers named `Collision`, `Detail`,
/// `Background` and `Interactable`, each a run of chunks. Layers are looked
/// up first, then their chunks are read, then the world is checked as
/// `World::new` does. The world has no tile entities.
pub fn parse_map(h: &[u8]) -> (r: Result<World, MapError>)
    ensures
        r == Err::<World, MapError>(MapError::MissingLayer) <==> !has_all_layers(h@),
        r == Err::<World, MapError>(MapError::BadChunk) <==> has_all_layers(h@) && map_layers(
            h@,
        ) is None,
        r == Err::<World, MapError>(MapError::Invalid(WorldError::MisalignedOrigin)) <==> (map_layers(
            h@,
        ) matches Some((a, b, c, d)) && !(models_aligned(a) && models_aligned(b) && models_aligned(c)
            && models_aligned(d))),
        r == Err::<World, MapError>(MapError::Invalid(WorldError::DuplicateOrigin)) <==> (map_layers(
            h@,
        ) matches Some((a, b, c, d)) && models_aligned(a) && models_aligned(b) && models_aligned(c)
            && models_aligned(d) && !(models_distinct(a) && models_distinct(b) && models_distinct(c)
            && models_distinct(d))),
        r is Ok <==> (map_layers(h@) matches Some((a, b, c, d)) && models_aligned(a)
            && models_aligned(b) && models_aligned(c) && models_aligned(d) && models_distinct(a)
            && models_distinct(b) && models_distinct(c) && models_distinct(d)),
        r matches Ok(w) ==> {
            &&& w.wf()
            &&& w.tile_entities@.len() == 0
            &&& map_layers(h@) matches Some((a, b, c, d)) && models(w.collision@, a) && models(
                w.details@,
                b,
            ) && models(w.background@, c) && models(w.interactable@, d)
        },
{
    let n0 = bytes_name(0);
    let n1 = bytes_name(1);
    let n2 = bytes_name(2);
    let n3 = bytes_name(3);
    let s0 = get_layer(h, n0.as_slice());
    let s1 = get_layer(h, n1.as_slice());
    let s2 = get_layer(h, n2.as_slice());
    let s3 = get_layer(h, n3.as_slice());
    let (s0, s1, s2, s3) = match (s0, s1, s2, s3) {
        (Some(s0), Some(s1), Some(s2), Some(s3)) => (s0, s1, s2, s3),
        _ => {
            return Err(MapError::MissingLayer);
        },
    };
    let c0 = get_all_chunks(h, s0.0, s0.1);
    let c1 = get_all_chunks(h, s1.0, s1.1);
    let c2 = get_all_chunks(h, s2.0, s2.1);
    let c3 = get_all_chunks(h, s3.0, s3.1);
    let (c0, c1, c2, c3) = match (c0, c1, c2, c3) {
        (Some(c0), Some(c1), Some(c2), Some(c3)) => (c0, c1, c2, c3),
        _ => {
            return Err(MapError::BadChunk);
        },
    };
    let ghost ms = map_layers(h@)->Some_0;
    proof {
        lemma_models_props(c0@, ms.0);
        lemma_models_props(c1@, ms.1);
        lemma_models_props(c2@, ms.2);
        lemma_models_props(c3@, ms.3);
    }
    match World::new(c0, c1, c2, c3, Vec::new()) {
        Ok(w) => {
            assert(models(w.collision@, ms.0));
            assert(models(w.details@, ms.1));
            assert(models(w.background@, ms.2));
            assert(models(w.interactable@, ms.3));
            Ok(w)
        },
        Err(e) => Err(MapError::Invalid(e)),
    }
}

} // verus!
