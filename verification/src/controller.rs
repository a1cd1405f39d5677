//! Controller discovery and selection.
//!
//! A controller is one backlight-capable device directory exposing readable
//! integer attributes.  The filesystem itself is a collaborator: callers
//! enumerate candidate directories and read raw attribute bytes, while the
//! decisions — which raw bytes count as an integer, and which candidate
//! wins — live here, over plain values.  Paths are carried as raw bytes.

use vstd::prelude::*;
use vstd::arithmetic::div_mod::lemma_div_is_ordered;
use vstd::arithmetic::div_mod::lemma_div_multiples_vanish;
use vstd::arithmetic::div_mod::lemma_multiply_divide_lt;
use crate::stepper::Bounded;

verus! {

/// Bytes of the attribute leaf holding the writable brightness value.
pub open spec fn brightness_leaf() -> Seq<u8> {
    seq![98u8, 114u8, 105u8, 103u8, 104u8, 116u8, 110u8, 101u8, 115u8, 115u8]
}

/// The attribute path derived from a device path: a `/`-separated join
/// that neither doubles an existing trailing separator nor invents one
/// for an empty base.
pub open spec fn joined_brightness_path(p: Seq<u8>) -> Seq<u8> {
    if p.len() == 0 {
        brightness_leaf()
    } else if p.last() == 47 {
        p + brightness_leaf()
    } else {
        p + seq![47u8] + brightness_leaf()
    }
}

/// One addressable brightness device at a point in time.  A plain value
/// snapshot: the selection code fills it from live attribute values, the
/// step engine consumes it, nothing validates it here.
#[derive(Clone, Debug)]
pub struct Controller {
    /// Directory of the device whose attributes were read, as raw bytes.
    pub path: Vec<u8>,
    /// Hardware-reported maximum brightness.
    pub max_brightness: u64,
    /// Brightness currently in effect.
    pub brightness: u64,
    /// Number of discrete steps the range is divided into.
    pub num_steps: u64,
}

impl Bounded for Controller {
    open spec fn spec_current(&self) -> u64 {
        self.brightness
    }

    open spec fn spec_max(&self) -> u64 {
        self.max_brightness
    }

    open spec fn spec_num_steps(&self) -> u64 {
        self.num_steps
    }

    fn current(&self) -> u64 {
        self.brightness
    }

    fn max(&self) -> u64 {
        self.max_brightness
    }

    fn num_steps(&self) -> u64 {
        self.num_steps
    }

    fn with_current(&self, brightness: u64) -> (r: Controller)
        ensures
            r.path@ == self.path@,
    {
        Controller {
            path: copy_bytes(&self.path),
            max_brightness: self.max_brightness,
            brightness,
            num_steps: self.num_steps,
        }
    }
}

impl Controller {
    /// A snapshot from attribute values already read off one device.
    pub fn new(path: Vec<u8>, max_brightness: u64, brightness: u64, num_steps: u64) -> (r:
        Controller)
        ensures
            r.path@ == path@,
            r.spec_max() == max_brightness,
            r.spec_current() == brightness,
            r.spec_num_steps() == num_steps,
    {
        Controller { path, max_brightness, brightness, num_steps }
    }

    /// Path of the device's writable brightness attribute.
    pub fn brightness_path(&self) -> (r: Vec<u8>)
        ensures
            r@ == joined_brightness_path(self.path@),
    {
        let mut r = copy_bytes(&self.path);
        if r.len() == 0 {
        } else if r[r.len() - 1] != 47 {
            r.push(47);
            proof {
                assert(r@ =~= self.path@ + seq![47u8]);
            }
        }
        push_brightness_leaf(&mut r);
        proof {
            if self.path@.len() > 0 && self.path@.last() != 47 {
                assert(r@ =~= (self.path@ + seq![47u8]) + brightness_leaf());
                assert(joined_brightness_path(self.path@) =~= (self.path@ + seq![47u8])
                    + brightness_leaf());
            }
        }
        r
    }
}

/// ASCII whitespace, as trimmed off an attribute read.
pub open spec fn is_ws(b: u8) -> bool {
    b == 32 || (9 <= b <= 13)
}

pub open spec fn trim_front(s: Seq<u8>) -> Seq<u8>
    decreases s.len(),
{
    if s.len() > 0 && is_ws(s[0]) {
        trim_front(s.drop_first())
    } else {
        s
    }
}

pub open spec fn trim_back(s: Seq<u8>) -> Seq<u8>
    decreases s.len(),
{
    if s.len() > 0 && is_ws(s.last()) {
        trim_back(s.drop_last())
    } else {
        s
    }
}

/// The attribute bytes with surrounding whitespace removed.
pub open spec fn trimmed(s: Seq<u8>) -> Seq<u8> {
    trim_front(trim_back(s))
}

pub open spec fn is_digit(b: u8) -> bool {
    48 <= b <= 57
}

/// The trimmed bytes with an optional single leading `+` sign removed.
pub open spec fn numeric_body(s: Seq<u8>) -> Seq<u8> {
    if s.len() > 0 && s[0] == 43 {
        s.drop_first()
    } else {
        s
    }
}

pub open spec fn all_digits(s: Seq<u8>) -> bool {
    forall|i: int| 0 <= i < s.len() ==> is_digit(#[trigger] s[i])
}

/// Value of a decimal digit string.
pub open spec fn digits_val(s: Seq<u8>) -> nat
    decreases s.len(),
{
    if s.len() == 0 {
        0
    } else {
        (digits_val(s.drop_last()) * 10 + (s.last() - 48)) as nat
    }
}

/// What an attribute read yields: the decimal integer in the buffer, if the
/// buffer holds exactly one (surrounding whitespace and one leading `+`
/// tolerated) and it fits the machine word; nothing otherwise.
pub open spec fn parse_attr_spec(s: Seq<u8>) -> Option<u64> {
    let t = numeric_body(trimmed(s));
    if t.len() > 0 && all_digits(t) && digits_val(t) <= u64::MAX {
        Some(digits_val(t) as u64)
    } else {
        None
    }
}

/// A longer digit string never has a smaller value.
proof fn lemma_digits_val_prefix(s: Seq<u8>, k: int)
    requires
        0 <= k <= s.len(),
        all_digits(s),
    ensures
        digits_val(s.take(k)) <= digits_val(s),
    decreases s.len() - k,
{
    if k < s.len() {
        lemma_digits_val_prefix(s.drop_last(), k);
        assert(s.drop_last().take(k) =~= s.take(k));
        assert(all_digits(s.drop_last()));
        let dv = digits_val(s.drop_last());
        assert(dv * 10 >= dv) by (nonlinear_arith)
            requires
                dv >= 0,
        ;
        assert(is_digit(s.last()));
        assert(digits_val(s) == (dv * 10 + (s.last() - 48)) as nat);
    } else {
        assert(s.take(k) =~= s);
    }
}

/// Parses one attribute read, exactly as `parse_attr_spec` says: the
/// integer in the buffer, or nothing when the buffer holds anything else.
/// A failed or garbled read is thereby absence, never an error.
pub fn parse_attr(buf: &[u8]) -> (r: Option<u64>)
    ensures
        r == parse_attr_spec(buf@),
{
    let s = Ghost(buf@);
    let mut hi: usize = buf.len();
    proof {
        assert(s@.take(hi as int) =~= s@);
    }
    while hi > 0 && is_ws_exec(buf[hi - 1])
        invariant
            hi <= s@.len(),
            s@ == buf@,
            trim_back(s@) == trim_back(s@.take(hi as int)),
        decreases hi,
    {
        proof {
            assert(s@.take(hi as int).drop_last() =~= s@.take(hi - 1));
        }
        hi = hi - 1;
    }
    proof {
        assert(trim_back(s@) == s@.take(hi as int));
    }
    let mut lo: usize = 0;
    while lo < hi && is_ws_exec(buf[lo])
        invariant
            lo <= hi <= s@.len(),
            s@ == buf@,
            trim_back(s@) == s@.take(hi as int),
            trimmed(s@) == trim_front(s@.subrange(lo as int, hi as int)),
        decreases hi - lo,
    {
        proof {
            assert(s@.subrange(lo as int, hi as int).drop_first() =~= s@.subrange(
                lo + 1,
                hi as int,
            ));
        }
        lo = lo + 1;
    }
    proof {
        assert(trimmed(s@) == s@.subrange(lo as int, hi as int));
    }
    if lo < hi && buf[lo] == 43 {
        proof {
            assert(s@.subrange(lo as int, hi as int).drop_first() =~= s@.subrange(
                lo + 1,
                hi as int,
            ));
        }
        lo = lo + 1;
    } else {
        proof {
            assert(numeric_body(trimmed(s@)) == s@.subrange(lo as int, hi as int));
        }
    }
    let body = Ghost(s@.subrange(lo as int, hi as int));
    proof {
        assert(numeric_body(trimmed(s@)) == body@);
    }
    if lo == hi {
        proof {
            assert(body@.len() == 0);
        }
        return None;
    }
    let mut val: u64 = 0;
    let mut i: usize = lo;
    while i < hi
        invariant
            lo <= i <= hi <= s@.len(),
            s@ == buf@,
            body@ == s@.subrange(lo as int, hi as int),
            numeric_body(trimmed(s@)) == body@,
            lo < hi,
            forall|j: int| lo <= j < i ==> is_digit(#[trigger] s@[j]),
            val == digits_val(s@.subrange(lo as int, i as int)),
        decreases hi - i,
    {
        let b = buf[i];
        if b < 48 || b > 57 {
            proof {
                assert(!is_digit(body@[i - lo]));
            }
            return None;
        }
        let d: u64 = (b - 48) as u64;
        let wide: u128 = (val as u128) * 10 + (d as u128);
        proof {
            assert(s@.subrange(lo as int, i + 1).drop_last() =~= s@.subrange(lo as int, i as int));
            assert(s@.subrange(lo as int, i + 1).last() == s@[i as int]);
        }
        if wide > 0xFFFFFFFFFFFFFFFF {
            proof {
                if all_digits(body@) {
                    assert(body@.take(i + 1 - lo) =~= s@.subrange(lo as int, i + 1));
                    lemma_digits_val_prefix(body@, i + 1 - lo);
                }
            }
            return None;
        }
        val = wide as u64;
        i = i + 1;
    }
    proof {
        assert(body@ =~= s@.subrange(lo as int, i as int));
    }
    Some(val)
}

/// 10 to the power `k`.
pub open spec fn pow10(k: nat) -> nat
    decreases k,
{
    if k == 0 {
        1
    } else {
        10 * pow10((k - 1) as nat)
    }
}

/// Decimal digits of a brightness value, as written back to a device's
/// attribute: the canonical form — at least one digit, no sign, no
/// leading zero — whose value is exactly `v`.  The inverse of
/// `parse_attr` on what it produces.
pub fn render_attr(v: u64) -> (r: Vec<u8>)
    ensures
        all_digits(r@),
        r@.len() >= 1,
        digits_val(r@) == v,
        r@[0] != 48 || r@.len() == 1,
{
    if v == 0 {
        let mut r: Vec<u8> = Vec::new();
        r.push(48);
        proof {
            assert(r@.len() == 1);
            assert(r@.last() == 48);
            assert(r@.drop_last() =~= Seq::<u8>::empty());
            assert(digits_val(r@.drop_last()) == 0);
            assert(digits_val(r@) == 0);
        }
        return r;
    }
    let mut p10: u64 = 1;
    let ghost mut k: nat = 0;
    while p10 <= v / 10
        invariant
            1 <= v,
            1 <= p10 <= v,
            p10 == pow10(k),
        decreases v - p10,
    {
        proof {
            assert(pow10(k + 1) == 10 * pow10(k));
            if 10 * p10 > v {
                lemma_multiply_divide_lt(v as int, 10, p10 as int);
                assert(false);
            }
            k = k + 1;
        }
        p10 = p10 * 10;
    }
    proof {
        if v >= 10 * p10 {
            lemma_div_is_ordered(10 * p10, v as int, 10);
            lemma_div_multiples_vanish(p10 as int, 10);
            assert(false);
        }
    }
    let mut r: Vec<u8> = Vec::new();
    let mut x = v;
    let mut p = p10;
    let ghost mut j: nat = k;
    proof {
        assert(r@ =~= Seq::<u8>::empty());
        assert(digits_val(r@) == 0);
        assert(digits_val(r@) * (10 * p) == 0) by (nonlinear_arith)
            requires
                digits_val(r@) == 0,
        ;
    }
    loop
        invariant_except_break
            p == pow10(j),
            1 <= p,
            1 <= v,
            x < 10 * p,
            v == digits_val(r@) * (10 * p) + x,
            all_digits(r@),
            r@.len() >= 1 ==> r@[0] != 48,
            r@.len() >= 1 || (p == p10 && x == v && p <= v),
        ensures
            all_digits(r@),
            r@.len() >= 1,
            digits_val(r@) == v,
            r@[0] != 48,
        decreases j,
    {
        let d = x / p;
        proof {
            lemma_multiply_divide_lt(x as int, p as int, 10);
            if r@.len() == 0 && d == 0 {
                // the first digit cannot vanish: p <= x at the start
                lemma_div_is_ordered(p as int, x as int, p as int);
                vstd::arithmetic::div_mod::lemma_div_by_self(p as int);
                assert(false);
            }
        }
        let digit: u8 = 48 + (d as u8);
        let ghost prev = r@;
        let ghost dv = digits_val(r@);
        r.push(digit);
        proof {
            assert(r@.drop_last() =~= prev);
            assert(digits_val(r@) == dv * 10 + d);
            assert forall|idx: int| 0 <= idx < r@.len() implies is_digit(#[trigger] r@[idx]) by {
                if idx < prev.len() {
                    assert(r@[idx] == prev[idx]);
                }
            }
        }
        let x2 = x % p;
        proof {
            vstd::arithmetic::div_mod::lemma_fundamental_div_mod(x as int, p as int);
            assert((dv * 10 + d) * (p as int) == dv * (10 * p) + d * p) by (nonlinear_arith);
        }
        x = x2;
        if p == 1 {
            proof {
                assert(digits_val(r@) * 1 + x == v);
            }
            break;
        }
        proof {
            assert(j >= 1);
            assert(pow10(j) == 10 * pow10((j - 1) as nat));
            lemma_div_multiples_vanish(pow10((j - 1) as nat) as int, 10);
            j = (j - 1) as nat;
        }
        p = p / 10;
    }
    r
}

/// Index of the candidate that controller selection keeps: the first one
/// whose reported maximum brightness is strictly greater than every earlier
/// report and at least as great as every later one.  A candidate with no
/// readable report, or a report of zero, never wins.
pub fn best_candidate(maxes: &Vec<Option<u64>>) -> (r: Option<usize>)
    ensures
        (r is None) <==> (forall|j: int|
            0 <= j < maxes@.len() ==> !(#[trigger] maxes@[j] is Some && maxes@[j]->0 > 0)),
        r matches Some(i) ==> {
            &&& 0 <= i < maxes@.len()
            &&& maxes@[i as int] is Some
            &&& maxes@[i as int]->0 > 0
            &&& forall|j: int|
                0 <= j < maxes@.len() && #[trigger] maxes@[j] is Some ==> maxes@[j]->0
                    <= maxes@[i as int]->0
            &&& forall|j: int|
                0 <= j < i && #[trigger] maxes@[j] is Some ==> maxes@[j]->0 < maxes@[i as int]->0
        },
{
    let mut best: u64 = 0;
    let mut best_idx: usize = 0;
    let mut found = false;
    let mut k: usize = 0;
    while k < maxes.len()
        invariant
            k <= maxes@.len(),
            !found ==> best == 0,
            !found ==> forall|j: int|
                0 <= j < k ==> !(#[trigger] maxes@[j] is Some && maxes@[j]->0 > 0),
            found ==> {
                &&& best_idx < k
                &&& maxes@[best_idx as int] is Some
                &&& maxes@[best_idx as int]->0 == best
                &&& best > 0
                &&& forall|j: int|
                    0 <= j < k && #[trigger] maxes@[j] is Some ==> maxes@[j]->0 <= best
                &&& forall|j: int|
                    0 <= j < best_idx && #[trigger] maxes@[j] is Some ==> maxes@[j]->0 < best
            },
        decreases maxes@.len() - k,
    {
        if let Some(v) = maxes[k] {
            if v > best {
                best = v;
                best_idx = k;
                found = true;
            }
        }
        k = k + 1;
    }
    if found {
        Some(best_idx)
    } else {
        None
    }
}

/// The path with trailing separators removed.
pub open spec fn strip_trailing_slashes(p: Seq<u8>) -> Seq<u8>
    decreases p.len(),
{
    if p.len() > 0 && p.last() == 47 {
        strip_trailing_slashes(p.drop_last())
    } else {
        p
    }
}

pub proof fn lemma_strip_trailing_len(p: Seq<u8>)
    ensures
        strip_trailing_slashes(p).len() <= p.len(),
    decreases p.len(),
{
    if p.len() > 0 && p.last() == 47 {
        lemma_strip_trailing_len(p.drop_last());
    }
}

/// The file name of a path, by the platform's rule: trailing separators
/// are ignored, a final `.` component stands for the directory itself and
/// is skipped, a final `..` component has no name of its own, and what
/// remains after the last separator is the name.  An empty result means
/// the path has no file name.
pub open spec fn path_file_name(p: Seq<u8>) -> Seq<u8>
    decreases p.len(),
{
    let t = strip_trailing_slashes(p);
    let c = last_component(t);
    if c == seq![46u8] {
        proof {
            lemma_strip_trailing_len(p);
            assert(t.len() > 0);
        }
        path_file_name(t.drop_last())
    } else if c == seq![46u8, 46u8] {
        Seq::empty()
    } else {
        c
    }
}

/// The bytes after the last separator: the whole path if it has none.
pub open spec fn last_component(p: Seq<u8>) -> Seq<u8>
    decreases p.len(),
{
    if p.len() == 0 {
        p
    } else if p.last() == 47 {
        Seq::empty()
    } else {
        last_component(p.drop_last()).push(p.last())
    }
}

impl Controller {
    /// The device's identifying name, as the notifier shows it: the file
    /// name of its path by the platform's rule (`path_file_name`), or
    /// nothing when the path has none.
    pub fn name(&self) -> (r: Option<Vec<u8>>)
        ensures
            ({
                let c = path_file_name(self.path@);
                if c.len() == 0 {
                    r is None
                } else {
                    r matches Some(v) && v@ == c
                }
            }),
    {
        let p = Ghost(self.path@);
        let mut end: usize = self.path.len();
        proof {
            assert(p@.take(end as int) =~= p@);
        }
        loop
            invariant
                end <= p@.len(),
                p@ == self.path@,
                path_file_name(p@) == path_file_name(p@.take(end as int)),
            decreases end,
        {
            let ghost end0 = end as int;
            while end > 0 && self.path[end - 1] == 47
                invariant
                    end <= p@.len(),
                    end as int <= end0,
                    p@ == self.path@,
                    strip_trailing_slashes(p@.take(end0)) == strip_trailing_slashes(
                        p@.take(end as int),
                    ),
                decreases end,
            {
                proof {
                    assert(p@.take(end as int).drop_last() =~= p@.take(end - 1));
                }
                end = end - 1;
            }
            proof {
                assert(strip_trailing_slashes(p@.take(end0)) == p@.take(end as int));
            }
            let t = Ghost(p@.take(end as int));
            let mut start: usize = end;
            proof {
                assert(last_component(p@.take(start as int)) + p@.subrange(
                    start as int,
                    end as int,
                ) =~= last_component(t@));
            }
            while start > 0 && self.path[start - 1] != 47
                invariant
                    start <= end <= p@.len(),
                    p@ == self.path@,
                    t@ == p@.take(end as int),
                    last_component(t@) == last_component(p@.take(start as int)) + p@.subrange(
                        start as int,
                        end as int,
                    ),
                decreases start,
            {
                proof {
                    assert(p@.take(start as int).drop_last() =~= p@.take(start - 1));
                    assert(p@.take(start as int).last() == p@[start - 1]);
                    assert(last_component(p@.take(start - 1)).push(p@[start - 1]) + p@.subrange(
                        start as int,
                        end as int,
                    ) =~= last_component(p@.take(start - 1)) + p@.subrange(start - 1, end as int));
                }
                start = start - 1;
            }
            proof {
                assert(last_component(p@.take(start as int)).len() == 0);
                assert(last_component(t@) =~= p@.subrange(start as int, end as int));
            }
            let ghost comp = p@.subrange(start as int, end as int);
            if end - start == 1 && self.path[start] == 46 {
                // a lone `.` component stands for the directory: skip it
                proof {
                    assert(comp =~= seq![46u8]);
                    assert(t@.drop_last() =~= p@.take(end - 1));
                    assert(path_file_name(p@.take(end0)) == path_file_name(p@.take(end - 1)));
                }
                end = end - 1;
            } else if end - start == 2 && self.path[start] == 46 && self.path[start + 1] == 46 {
                // a final `..` component has no name of its own
                proof {
                    assert(comp =~= seq![46u8, 46u8]);
                    assert(comp != seq![46u8]);
                    assert(path_file_name(p@.take(end0)).len() == 0);
                }
                return None;
            } else {
                proof {
                    if comp == seq![46u8] {
                        assert(comp[0] == 46);
                        assert(false);
                    }
                    if comp == seq![46u8, 46u8] {
                        assert(comp[0] == 46 && comp[1] == 46);
                        assert(false);
                    }
                    assert(path_file_name(p@.take(end0)) == comp);
                }
                if start == end {
                    return None;
                }
                let mut v: Vec<u8> = Vec::new();
                let mut i: usize = start;
                while i < end
                    invariant
                        start <= i <= end <= p@.len(),
                        start < end,
                        p@ == self.path@,
                        v@ == p@.subrange(start as int, i as int),
                        path_file_name(p@) == p@.subrange(start as int, end as int),
                    decreases end - i,
                {
                    v.push(self.path[i]);
                    proof {
                        assert(v@ =~= p@.subrange(start as int, i + 1));
                    }
                    i = i + 1;
                }
                return Some(v);
            }
        }
    }
}

/// ASCII whitespace test on a machine byte.
fn is_ws_exec(b: u8) -> (r: bool)
    ensures
        r == is_ws(b),
{
    b == 32 || (9 <= b && b <= 13)
}

/// A fresh byte vector with the same contents.
fn copy_bytes(src: &Vec<u8>) -> (r: Vec<u8>)
    ensures
        r@ == src@,
{
    let mut r: Vec<u8> = Vec::new();
    let mut i: usize = 0;
    while i < src.len()
        invariant
            i <= src.len(),
            r@ == src@.subrange(0, i as int),
        decreases src.len() - i,
    {
        r.push(src[i]);
        proof {
            assert(r@ =~= src@.subrange(0, i + 1));
        }
        i = i + 1;
    }
    proof {
        assert(src@.subrange(0, src@.len() as int) =~= src@);
    }
    r
}

/// Appends the bytes of the brightness attribute leaf.
fn push_brightness_leaf(r: &mut Vec<u8>)
    ensures
        final(r)@ == old(r)@ + brightness_leaf(),
{
    r.push(98);
    r.push(114);
    r.push(105);
    r.push(103);
    r.push(104);
    r.push(116);
    r.push(110);
    r.push(101);
    r.push(115);
    r.push(115);
    proof {
        assert(r@ =~= old(r)@ + brightness_leaf());
    }
}

} // verus!
