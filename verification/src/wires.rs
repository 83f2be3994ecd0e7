//! Crossed wires: paths on a grid given as comma-separated direction
//! and distance tokens, their traced points, and the intersections
//! closest by distance or by combined wire length.

use vstd::prelude::*;
use vstd::string::StringSliceAdditionalSpecFns;

verus! {

/// Caps on one leg's length and on a wire's number of legs, so traced
/// coordinates provably stay within machine range.
pub const MAX_AMT: u32 = 10000000;

pub const MAX_INSTRS: usize = 10000;

pub type Point = (i64, i64);

#[derive(Clone, Copy, PartialEq, Eq, Structural, Debug)]
pub enum Direction {
    Up,
    Right,
    Down,
    Left,
}

/// The heading a direction letter names.
pub open spec fn spec_dir_from_char(c: char) -> Option<Direction> {
    if c == 'U' {
        Some(Direction::Up)
    } else if c == 'R' {
        Some(Direction::Right)
    } else if c == 'D' {
        Some(Direction::Down)
    } else if c == 'L' {
        Some(Direction::Left)
    } else {
        None
    }
}

/// The heading a direction byte names.
pub open spec fn spec_dir_from_byte(c: u8) -> Option<Direction> {
    if c == 85 {
        Some(Direction::Up)
    } else if c == 82 {
        Some(Direction::Right)
    } else if c == 68 {
        Some(Direction::Down)
    } else if c == 76 {
        Some(Direction::Left)
    } else {
        None
    }
}

impl Direction {
    /// The heading a direction letter names, if any.
    pub fn from_char(c: char) -> (r: Option<Direction>)
        ensures
            r == spec_dir_from_char(c),
    {
        match c {
            'U' => Some(Direction::Up),
            'R' => Some(Direction::Right),
            'D' => Some(Direction::Down),
            'L' => Some(Direction::Left),
            _ => None,
        }
    }
}

fn dir_from_byte(c: u8) -> (r: Option<Direction>)
    ensures
        r == spec_dir_from_byte(c),
{
    match c {
        85 => Some(Direction::Up),
        82 => Some(Direction::Right),
        68 => Some(Direction::Down),
        76 => Some(Direction::Left),
        _ => None,
    }
}

/// The point `k` grid steps from `p` along `d`, on mathematical
/// coordinates.
pub open spec fn spec_move_n(d: Direction, p: (int, int), k: int) -> (int, int) {
    match d {
        Direction::Up => (p.0, p.1 + k),
        Direction::Right => (p.0 + k, p.1),
        Direction::Down => (p.0, p.1 - k),
        Direction::Left => (p.0 - k, p.1),
    }
}

/// The neighbouring grid point along a heading.
pub fn next_point(p: &Point, dir: &Direction) -> (r: Point)
    requires
        i64::MIN < p.0 < i64::MAX,
        i64::MIN < p.1 < i64::MAX,
    ensures
        (r.0 as int, r.1 as int) == spec_move_n(*dir, (p.0 as int, p.1 as int), 1),
{
    let (x, y) = *p;
    match dir {
        Direction::Left => (x - 1, y),
        Direction::Right => (x + 1, y),
        Direction::Up => (x, y + 1),
        Direction::Down => (x, y - 1),
    }
}

pub open spec fn spec_manhattan(p: (int, int)) -> int {
    (if p.0 >= 0 {
        p.0
    } else {
        -p.0
    }) + (if p.1 >= 0 {
        p.1
    } else {
        -p.1
    })
}

/// The taxicab distance of a point from the central port.
pub fn manhattan_distance(p: &Point) -> (r: u64)
    requires
        -0x2000_0000_0000_0000 < p.0 < 0x2000_0000_0000_0000,
        -0x2000_0000_0000_0000 < p.1 < 0x2000_0000_0000_0000,
    ensures
        r == spec_manhattan((p.0 as int, p.1 as int)),
{
    let ax: u64 = if p.0 >= 0 {
        p.0 as u64
    } else {
        (-p.0) as u64
    };
    let ay: u64 = if p.1 >= 0 {
        p.1 as u64
    } else {
        (-p.1) as u64
    };
    ax + ay
}

/// One leg of a wire: a heading and how far to walk it.
#[derive(Clone, Copy, PartialEq, Eq, Structural, Debug)]
pub struct Instr {
    pub dir: Direction,
    pub amt: u32,
}

pub open spec fn is_digit(b: u8) -> bool {
    48 <= b <= 57
}

pub open spec fn all_digits(s: Seq<u8>) -> bool {
    forall|i: int| 0 <= i < s.len() ==> is_digit(#[trigger] s[i])
}

/// The number a digit string denotes, most significant digit first.
pub open spec fn digits_val(s: Seq<u8>) -> int
    decreases s.len(),
{
    if s.len() == 0 {
        0
    } else {
        digits_val(s.drop_last()) * 10 + (s.last() - 48)
    }
}

pub open spec fn pow10(n: nat) -> int
    decreases n,
{
    if n == 0 {
        1
    } else {
        10 * pow10((n - 1) as nat)
    }
}

pub proof fn lemma_pow10_le(a: nat, b: nat)
    requires
        a <= b,
    ensures
        1 <= pow10(a) <= pow10(b),
    decreases b,
{
    if b == 0 {
    } else if a == b {
        lemma_pow10_le((a - 1) as nat, (b - 1) as nat);
    } else {
        lemma_pow10_le(a, (b - 1) as nat);
    }
}

pub proof fn lemma_digits_val_bound(s: Seq<u8>)
    requires
        all_digits(s),
    ensures
        0 <= digits_val(s) < pow10(s.len()),
    decreases s.len(),
{
    if s.len() != 0 {
        assert(all_digits(s.drop_last())) by {
            assert(forall|i: int|
                0 <= i < s.len() - 1 ==> s.drop_last()[i] == #[trigger] s[i]);
        }
        lemma_digits_val_bound(s.drop_last());
        assert(is_digit(s.last()));
        assert(digits_val(s) < pow10(s.len())) by (nonlinear_arith)
            requires
                digits_val(s) == digits_val(s.drop_last()) * 10 + (s.last() - 48),
                0 <= digits_val(s.drop_last()) < pow10((s.len() - 1) as nat),
                pow10(s.len()) == 10 * pow10((s.len() - 1) as nat),
                0 <= s.last() - 48 <= 9,
        ;
    }
}

/// What one token denotes: a direction letter followed by one to seven
/// digits.
pub open spec fn spec_parse_instr(s: Seq<u8>) -> Option<Instr> {
    if s.len() < 2 || s.len() > 8 {
        None
    } else {
        match spec_dir_from_byte(s[0]) {
            None => None,
            Some(d) => if all_digits(s.drop_first()) {
                Some(Instr { dir: d, amt: digits_val(s.drop_first()) as u32 })
            } else {
                None
            },
        }
    }
}

fn parse_instr_bytes(b: &[u8], from: usize, to: usize) -> (r: Option<Instr>)
    requires
        from <= to <= b@.len(),
    ensures
        r == spec_parse_instr(b@.subrange(from as int, to as int)),
{
    let ghost tok = b@.subrange(from as int, to as int);
    let n = to - from;
    if n < 2 || n > 8 {
        return None;
    }
    let d = match dir_from_byte(b[from]) {
        None => {
            return None;
        },
        Some(d) => d,
    };
    let mut acc: u32 = 0;
    let mut i: usize = 1;
    while i < n
        invariant
            1 <= i <= n,
            2 <= n <= 8,
            from + n == to <= b@.len(),
            tok == b@.subrange(from as int, to as int),
            all_digits(tok.subrange(1, i as int)),
            acc == digits_val(tok.subrange(1, i as int)),
            acc < 10000000,
        decreases n - i,
    {
        let c = b[from + i];
        if !(48 <= c && c <= 57) {
            proof {
                assert(tok[i as int] == c);
                assert(!all_digits(tok.drop_first())) by {
                    assert(tok.drop_first()[i - 1] == c);
                }
            }
            return None;
        }
        proof {
            let pre = tok.subrange(1, i as int);
            let cur = tok.subrange(1, i + 1);
            assert(cur.drop_last() =~= pre);
            assert(cur.last() == tok[i as int]);
            assert(tok[i as int] == c);
            lemma_digits_val_bound(cur);
            assert(cur.len() == i && i <= 7);
            lemma_pow10_le(cur.len(), 7);
            assert(pow10(0) == 1);
            assert(pow10(1) == 10);
            assert(pow10(2) == 100);
            assert(pow10(3) == 1000);
            assert(pow10(4) == 10000);
            assert(pow10(5) == 100000);
            assert(pow10(6) == 1000000);
            assert(pow10(7) == 10000000);
        }
        acc = acc * 10 + ((c - 48) as u32);
        i = i + 1;
    }
    proof {
        assert(tok.subrange(1, n as int) =~= tok.drop_first());
    }
    Some(Instr { dir: d, amt: acc })
}

/// Parse one direction-and-distance token, such as a letter followed by
/// digits.
impl Instr {
    pub fn from_string(s: &str) -> (r: Option<Instr>)
        ensures
            r == spec_parse_instr(s.spec_bytes()),
    {
        let b = s.as_bytes();
        let n = b.len();
        let r = parse_instr_bytes(b, 0, n);
        proof {
            assert(b@.subrange(0, n as int) =~= b@);
        }
        r
    }
}

// ------------------------------------------------------------------
// Whole wires
// ------------------------------------------------------------------

/// The comma-separated tokens of a byte string. Splitting an empty
/// string gives one empty token, so there is always at least one.
pub open spec fn spec_split(s: Seq<u8>) -> Seq<Seq<u8>>
    decreases s.len(),
{
    if s.len() == 0 {
        seq![Seq::<u8>::empty()]
    } else if s[0] == 44 {
        seq![Seq::<u8>::empty()] + spec_split(s.drop_first())
    } else {
        let r = spec_split(s.drop_first());
        seq![seq![s[0]] + r[0]] + r.drop_first()
    }
}

pub proof fn lemma_split_nonempty(s: Seq<u8>)
    ensures
        spec_split(s).len() >= 1,
    decreases s.len(),
{
    if s.len() != 0 && s[0] != 44 {
        lemma_split_nonempty(s.drop_first());
    }
}

/// Splitting a string whose first `k` bytes are comma-free and whose
/// `k`-th byte (if any) is a comma: the head token and the split of the
/// rest.
pub proof fn lemma_split_at_comma(s: Seq<u8>, k: int)
    requires
        0 <= k <= s.len(),
        forall|i: int| 0 <= i < k ==> s[i] != 44,
        k < s.len() ==> s[k] == 44,
    ensures
        spec_split(s) == if k == s.len() {
            seq![s]
        } else {
            seq![s.take(k)] + spec_split(s.skip(k + 1))
        },
    decreases k,
{
    if k == 0 {
        if s.len() == 0 {
            assert(spec_split(s) =~~= seq![s]);
        } else {
            assert(s[0] == 44);
            assert(s.take(0) =~= Seq::<u8>::empty());
            assert(s.skip(1) =~= s.drop_first());
            assert(spec_split(s) =~~= seq![s.take(0)] + spec_split(s.skip(1)));
        }
    } else {
        assert(s[0] != 44);
        let d = s.drop_first();
        assert forall|i: int| 0 <= i < k - 1 implies d[i] != 44 by {
            assert(d[i] == s[i + 1]);
        }
        assert(k - 1 < d.len() ==> d[k - 1] == 44);
        lemma_split_at_comma(d, k - 1);
        let r = spec_split(d);
        lemma_split_nonempty(d);
        if k == s.len() {
            assert(r == seq![d]);
            assert(seq![s[0]] + r[0] =~= s);
            assert(r.drop_first() =~= Seq::<Seq<u8>>::empty());
            assert(spec_split(s) =~~= seq![s]);
        } else {
            assert(r == seq![d.take(k - 1)] + spec_split(d.skip(k)));
            assert(r[0] == d.take(k - 1));
            assert(seq![s[0]] + d.take(k - 1) =~= s.take(k));
            assert(d.skip(k) =~= s.skip(k + 1));
            assert(r.drop_first() =~= spec_split(s.skip(k + 1)));
            assert(spec_split(s) =~~= seq![s.take(k)] + spec_split(s.skip(k + 1)));
        }
    }
}

/// What a whole line denotes: every comma-separated token a leg, at
/// most `MAX_INSTRS` of them.
pub open spec fn spec_parse_wire(s: Seq<u8>) -> Option<Seq<Instr>> {
    let toks = spec_split(s);
    if toks.len() <= MAX_INSTRS && (forall|i: int|
        0 <= i < toks.len() ==> spec_parse_instr(#[trigger] toks[i]) is Some) {
        Some(Seq::new(toks.len(), |i: int| spec_parse_instr(toks[i])->0))
    } else {
        None
    }
}

fn parse_wire_bytes(b: &[u8], from: usize) -> (r: Option<Vec<Instr>>)
    requires
        from <= b@.len(),
    ensures
        match r {
            Some(v) => spec_parse_wire(b@.skip(from as int)) == Some(v@),
            None => spec_parse_wire(b@.skip(from as int)) is None,
        },
    decreases b@.len() - from,
{
    let n = b.len();
    let mut j = from;
    while j < n && b[j] != 44
        invariant
            from <= j <= n,
            n == b@.len(),
            forall|t: int| from <= t < j ==> b@[t] != 44,
        decreases n - j,
    {
        j = j + 1;
    }
    let ghost sfx = b@.skip(from as int);
    let ghost k = j - from;
    proof {
        assert forall|i: int| 0 <= i < k implies sfx[i] != 44 by {
            assert(sfx[i] == b@[from + i]);
        }
        assert(k < sfx.len() ==> sfx[k as int] == 44) by {
            if k < sfx.len() {
                assert(sfx[k as int] == b@[j as int]);
            }
        }
        lemma_split_at_comma(sfx, k as int);
        assert(sfx.take(k as int) =~= b@.subrange(from as int, j as int));
    }
    let instr = match parse_instr_bytes(b, from, j) {
        None => {
            proof {
                let toks = spec_split(sfx);
                assert(toks[0] == b@.subrange(from as int, j as int));
                assert(spec_parse_instr(toks[0]) is None);
            }
            return None;
        },
        Some(i) => i,
    };
    if j == n {
        let mut v: Vec<Instr> = Vec::new();
        v.push(instr);
        proof {
            let toks = spec_split(sfx);
            assert(toks == seq![sfx]);
            assert(sfx =~= b@.subrange(from as int, j as int));
            assert(spec_parse_instr(toks[0]) == Some(instr));
            assert(Seq::new(1, |i: int| spec_parse_instr(toks[i])->0) =~= v@);
        }
        Some(v)
    } else {
        let mut v = match parse_wire_bytes(b, j + 1) {
            None => {
                proof {
                    let toks = spec_split(sfx);
                    let rtoks = spec_split(b@.skip(j + 1));
                    assert(sfx.skip(k + 1) =~= b@.skip(j + 1));
                    assert(toks == seq![sfx.take(k as int)] + rtoks);
                    if toks.len() <= MAX_INSTRS && (forall|i: int|
                        0 <= i < toks.len() ==> spec_parse_instr(#[trigger] toks[i]) is Some) {
                        assert(rtoks.len() <= MAX_INSTRS);
                        assert forall|i: int|
                            0 <= i < rtoks.len() implies spec_parse_instr(
                            #[trigger] rtoks[i],
                        ) is Some by {
                            assert(rtoks[i] == toks[i + 1]);
                        }
                        assert(false);
                    }
                }
                return None;
            },
            Some(v) => v,
        };
        v.insert(0, instr);
        let ghost toks = spec_split(sfx);
        let ghost rtoks = spec_split(b@.skip(j + 1));
        proof {
            assert(sfx.skip(k + 1) =~= b@.skip(j + 1));
            assert(toks == seq![sfx.take(k as int)] + rtoks);
            assert(toks[0] == b@.subrange(from as int, j as int));
            assert(spec_parse_instr(toks[0]) == Some(instr));
        }
        if v.len() > MAX_INSTRS {
            proof {
                assert(toks.len() == rtoks.len() + 1);
                assert(toks.len() > MAX_INSTRS);
            }
            return None;
        }
        proof {
            assert(rtoks.len() <= MAX_INSTRS);
            assert forall|i: int|
                0 <= i < toks.len() implies spec_parse_instr(#[trigger] toks[i]) is Some by {
                if i > 0 {
                    assert(toks[i] == rtoks[i - 1]);
                    assert(spec_parse_instr(rtoks[i - 1]) is Some);
                }
            }
            assert(Seq::new(toks.len(), |i: int| spec_parse_instr(toks[i])->0) =~= v@) by {
                assert forall|i: int|
                    0 <= i < toks.len() implies spec_parse_instr(toks[i])->0 == v@[i] by {
                    if i == 0 {
                    } else {
                        assert(toks[i] == rtoks[i - 1]);
                    }
                }
            }
        }
        Some(v)
    }
}

/// A successful parse satisfies the wire's well-formedness caps: at
/// most `MAX_INSTRS` legs, each at most `MAX_AMT` long (one to seven
/// digits).
pub proof fn lemma_parse_wire_wf(s: Seq<u8>, instrs: Seq<Instr>)
    requires
        spec_parse_wire(s) == Some(instrs),
    ensures
        instrs.len() <= MAX_INSTRS,
        forall|i: int| 0 <= i < instrs.len() ==> (#[trigger] instrs[i]).amt <= MAX_AMT,
{
    let toks = spec_split(s);
    assert forall|i: int| 0 <= i < instrs.len() implies (#[trigger] instrs[i]).amt <= MAX_AMT by {
        assert(spec_parse_instr(toks[i]) is Some);
        let tok = toks[i];
        let digits = tok.drop_first();
        assert(instrs[i] == spec_parse_instr(tok)->0);
        assert(instrs[i].amt == digits_val(digits) as u32);
        lemma_digits_val_bound(digits);
        assert(digits.len() <= 7);
        lemma_pow10_le(digits.len(), 7);
        assert(pow10(0) == 1);
        assert(pow10(1) == 10);
        assert(pow10(2) == 100);
        assert(pow10(3) == 1000);
        assert(pow10(4) == 10000);
        assert(pow10(5) == 100000);
        assert(pow10(6) == 1000000);
        assert(pow10(7) == 10000000);
    }
}

/// One wire: its legs in walking order.
pub struct Wire {
    pub instrs: Vec<Instr>,
}

impl Wire {
    /// Parse a whole comma-separated line of legs.
    pub fn from_string(s: &str) -> (r: Option<Wire>)
        ensures
            match r {
                Some(w) => spec_parse_wire(s.spec_bytes()) == Some(w.instrs@) && w.wf(),
                None => spec_parse_wire(s.spec_bytes()) is None,
            },
    {
        let b = s.as_bytes();
        proof {
            assert(b@.skip(0) =~= b@);
        }
        match parse_wire_bytes(b, 0) {
            None => None,
            Some(v) => {
                proof {
                    lemma_parse_wire_wf(s.spec_bytes(), v@);
                }
                Some(Wire { instrs: v })
            },
        }
    }

    /// Every leg is within the length caps; parsing always gives this.
    pub open spec fn wf(&self) -> bool {
        &&& self.instrs@.len() <= MAX_INSTRS
        &&& forall|i: int| 0 <= i < self.instrs@.len() ==> (#[trigger] self.instrs@[i]).amt <= MAX_AMT
    }

    /// Every grid point the wire passes over, in walking order, the
    /// starting port excluded.
    pub fn get_points(&self) -> (r: Vec<Point>)
        requires
            self.wf(),
        ensures
            r@.len() == spec_trace(self.instrs@).len(),
            r@.len() <= 100000000000,
            forall|t: int|
                0 <= t < r@.len() ==> ((#[trigger] r@[t]).0 as int, r@[t].1 as int) == spec_trace(
                    self.instrs@,
                )[t],
            forall|t: int|
                0 <= t < r@.len() ==> -100000000000 <= (#[trigger] r@[t]).0 <= 100000000000
                    && -100000000000 <= r@[t].1 <= 100000000000,
    {
        let m: i64 = MAX_AMT as i64;
        let n = self.instrs.len();
        let mut pts: Vec<Point> = Vec::new();
        let mut x: i64 = 0;
        let mut y: i64 = 0;
        for i in 0..n
            invariant
                n == self.instrs@.len(),
                n <= MAX_INSTRS,
                m == MAX_AMT,
                forall|t: int|
                    0 <= t < self.instrs@.len() ==> (#[trigger] self.instrs@[t]).amt <= MAX_AMT,
                pts@.len() == spec_trace(self.instrs@.take(i as int)).len(),
                forall|t: int|
                    0 <= t < pts@.len() ==> ((#[trigger] pts@[t]).0 as int, pts@[t].1 as int)
                        == spec_trace(self.instrs@.take(i as int))[t],
                (x as int, y as int) == (if pts@.len() == 0 {
                    (0int, 0int)
                } else {
                    spec_trace(self.instrs@.take(i as int)).last()
                }),
                -(i as i64 * m) <= x <= i as i64 * m,
                -(i as i64 * m) <= y <= i as i64 * m,
                pts@.len() <= i as int * (m as int),
                forall|t: int|
                    0 <= t < pts@.len() ==> -100000000000 <= (#[trigger] pts@[t]).0
                        <= 100000000000 && -100000000000 <= pts@[t].1 <= 100000000000,
        {
            let instr = self.instrs[i];
            let amt = instr.amt;
            let ghost prefix = spec_trace(self.instrs@.take(i as int));
            let ghost start = (x as int, y as int);
            proof {
                assert((i as i64 + 1) * m <= 100000000000i64);
            }
            let mut k: u32 = 0;
            while k < amt
                invariant
                    amt == self.instrs@[i as int].amt,
                    amt <= MAX_AMT,
                    m == MAX_AMT,
                    i < self.instrs@.len(),
                    self.instrs@.len() <= MAX_INSTRS,
                    (i as i64 + 1) * m <= 100000000000i64,
                    pts@.len() <= i as int * (m as int) + k,
                    forall|t2: int|
                        0 <= t2 < pts@.len() ==> -100000000000 <= (#[trigger] pts@[t2]).0
                            <= 100000000000 && -100000000000 <= pts@[t2].1 <= 100000000000,
                    k <= amt,
                    instr == self.instrs@[i as int],
                    pts@.len() == prefix.len() + k,
                    prefix.len() == spec_trace(self.instrs@.take(i as int)).len(),
                    forall|t: int|
                        0 <= t < prefix.len() ==> ((#[trigger] pts@[t]).0 as int, pts@[t].1 as int)
                            == prefix[t],
                    forall|t: int|
                        prefix.len() <= t < pts@.len() ==> ((#[trigger] pts@[t]).0 as int,
                        pts@[t].1 as int) == spec_move_n(instr.dir, start, t - prefix.len() + 1),
                    forall|t: int|
                        0 <= t < prefix.len() ==> prefix[t] == spec_trace(
                            self.instrs@.take(i as int),
                        )[t],
                    (x as int, y as int) == spec_move_n(instr.dir, start, k as int),
                    -(i as i64 * m) - (k as i64) <= x <= i as i64 * m + k as i64,
                    -(i as i64 * m) - (k as i64) <= y <= i as i64 * m + k as i64,
                    start == (if prefix.len() == 0 {
                        (0int, 0int)
                    } else {
                        prefix.last()
                    }),
                decreases amt - k,
            {
                let p: Point = (x, y);
                let np = next_point(&p, &instr.dir);
                x = np.0;
                y = np.1;
                pts.push((x, y));
                k = k + 1;
            }
            proof {
                let full = self.instrs@.take(i + 1);
                assert(full.drop_last() =~= self.instrs@.take(i as int));
                assert(full.last() == instr);
                let tr = spec_trace(full);
                assert(tr == prefix + seg_points(instr.dir, start, amt as int));
                assert(pts@.len() == tr.len());
                assert forall|t: int|
                    0 <= t < pts@.len() implies ((#[trigger] pts@[t]).0 as int, pts@[t].1 as int)
                        == tr[t] by {
                    if t >= prefix.len() {
                        assert(tr[t] == seg_points(instr.dir, start, amt as int)[t - prefix.len()]);
                    }
                }
                assert((i + 1) as i64 * m == i as i64 * m + m);
                if tr.len() > 0 {
                    if amt == 0 {
                        assert(tr =~= prefix);
                    } else {
                        assert(tr.last() == seg_points(instr.dir, start, amt as int)[amt - 1]);
                        assert(tr.last() == spec_move_n(instr.dir, start, amt as int));
                    }
                }
            }
        }
        proof {
            assert(self.instrs@.take(n as int) =~= self.instrs@);
        }
        pts
    }
}

/// The points of one leg: each step's landing point, in walking order.
pub open spec fn seg_points(d: Direction, p: (int, int), amt: int) -> Seq<(int, int)> {
    Seq::new(amt as nat, |k: int| spec_move_n(d, p, k + 1))
}

/// Every point a wire passes over, in walking order, starting after the
/// central port.
pub open spec fn spec_trace(instrs: Seq<Instr>) -> Seq<(int, int)>
    decreases instrs.len(),
{
    if instrs.len() == 0 {
        Seq::<(int, int)>::empty()
    } else {
        let t = spec_trace(instrs.drop_last());
        let start = if t.len() == 0 {
            (0int, 0int)
        } else {
            t.last()
        };
        t + seg_points(instrs.last().dir, start, instrs.last().amt as int)
    }
}

/// The number of steps to the first visit of `q`, or the whole trace
/// length when the wire never passes over `q`.
pub open spec fn spec_steps_to(tr: Seq<(int, int)>, q: (int, int)) -> int
    decreases tr.len(),
{
    if tr.len() == 0 {
        0
    } else if tr[0] == q {
        1
    } else {
        1 + spec_steps_to(tr.drop_first(), q)
    }
}

/// `q` lies on the trace.
pub open spec fn on_trace(tr: Seq<(int, int)>, q: (int, int)) -> bool {
    exists|t: int| 0 <= t < tr.len() && #[trigger] tr[t] == q
}

/// Both wires pass over `q`.
pub open spec fn common_point(a: Seq<Instr>, b: Seq<Instr>, q: (int, int)) -> bool {
    on_trace(spec_trace(a), q) && on_trace(spec_trace(b), q)
}

impl Wire {
    /// How many steps along the wire the point `p` first is; the whole
    /// trace length when the wire misses it.
    pub fn steps_to_intersection(&self, p: &Point) -> (r: u64)
        requires
            self.wf(),
        ensures
            r == spec_steps_to(spec_trace(self.instrs@), (p.0 as int, p.1 as int)),
            r <= spec_trace(self.instrs@).len(),
    {
        let pts = self.get_points();
        let ghost tr = spec_trace(self.instrs@);
        let ghost q = (p.0 as int, p.1 as int);
        let n = pts.len();
        proof {
            assert(tr.skip(0) =~= tr);
        }
        let mut i: usize = 0;
        while i < n
            invariant
                n == pts@.len(),
                n == tr.len(),
                tr == spec_trace(self.instrs@),
                i <= n,
                forall|t: int|
                    0 <= t < n ==> ((#[trigger] pts@[t]).0 as int, pts@[t].1 as int) == tr[t],
                q == (p.0 as int, p.1 as int),
                spec_steps_to(tr, q) == i + spec_steps_to(tr.skip(i as int), q),
                forall|t: int| 0 <= t < i ==> tr[t] != q,
            decreases n - i,
        {
            let e = pts[i];
            proof {
                assert(tr.skip(i as int)[0] == tr[i as int]);
                assert(tr.skip(i as int).drop_first() =~= tr.skip(i + 1));
            }
            if e.0 == p.0 && e.1 == p.1 {
                proof {
                    assert(tr[i as int] == q);
                    assert(spec_steps_to(tr.skip(i as int), q) == 1);
                }
                return (i as u64) + 1;
            }
            proof {
                assert(tr[i as int] != q);
            }
            i = i + 1;
        }
        proof {
            assert(tr.skip(n as int) =~= Seq::<(int, int)>::empty());
        }
        n as u64
    }
}

/// The smallest taxicab distance at which the two wires cross, if they
/// cross at all.
pub fn find_closest_intersection(w: &Wire, v: &Wire) -> (r: Option<u64>)
    requires
        w.wf(),
        v.wf(),
    ensures
        r matches Some(d) ==> (exists|q: (int, int)|
            #[trigger] common_point(w.instrs@, v.instrs@, q) && spec_manhattan(q) == d) && (forall|
            q: (int, int),
        |
            #[trigger] common_point(w.instrs@, v.instrs@, q) ==> spec_manhattan(q) >= d),
        r is None ==> forall|q: (int, int)| !common_point(w.instrs@, v.instrs@, q),
{
    let w_pts = w.get_points();
    let v_pts = v.get_points();
    let ghost tw = spec_trace(w.instrs@);
    let ghost tv = spec_trace(v.instrs@);
    let mut best: Option<u64> = None;
    let n = w_pts.len();
    for i in 0..n
        invariant
            n == w_pts@.len(),
            n == tw.len(),
            tw == spec_trace(w.instrs@),
            tv == spec_trace(v.instrs@),
            forall|t: int|
                0 <= t < n ==> ((#[trigger] w_pts@[t]).0 as int, w_pts@[t].1 as int) == tw[t],
            v_pts@.len() == tv.len(),
            forall|t: int|
                0 <= t < tv.len() ==> ((#[trigger] v_pts@[t]).0 as int, v_pts@[t].1 as int)
                    == tv[t],
            match best {
                Some(d) => (exists|q: (int, int)|
                    #[trigger] common_point(w.instrs@, v.instrs@, q) && spec_manhattan(q) == d)
                    && (forall|t: int|
                    0 <= t < i && on_trace(tv, #[trigger] tw[t]) ==> spec_manhattan(tw[t]) >= d),
                None => forall|t: int| 0 <= t < i ==> !on_trace(tv, #[trigger] tw[t]),
            },
            forall|t: int|
                0 <= t < w_pts@.len() ==> -100000000000 <= (#[trigger] w_pts@[t]).0
                    <= 100000000000 && -100000000000 <= w_pts@[t].1 <= 100000000000,
    {
        let p = w_pts[i];
        let mut hit = false;
        let mv = v_pts.len();
        for jj in 0..mv
            invariant
                mv == v_pts@.len(),
                mv == tv.len(),
                forall|t: int|
                    0 <= t < tv.len() ==> ((#[trigger] v_pts@[t]).0 as int, v_pts@[t].1 as int)
                        == tv[t],
                i < n,
                n == w_pts@.len(),
                n == tw.len(),
                forall|t: int|
                    0 <= t < n ==> ((#[trigger] w_pts@[t]).0 as int, w_pts@[t].1 as int) == tw[t],
                p == w_pts@[i as int],
                hit ==> on_trace(tv, tw[i as int]),
                !hit ==> forall|t: int| 0 <= t < jj ==> tv[t] != tw[i as int],
        {
            let e = v_pts[jj];
            if e.0 == p.0 && e.1 == p.1 {
                proof {
                    assert(tv[jj as int] == tw[i as int]);
                }
                hit = true;
            }
        }
        proof {
            if !hit {
                assert(!on_trace(tv, tw[i as int]));
            }
        }
        if hit {
            let d = manhattan_distance(&p);
            proof {
                assert(on_trace(tw, tw[i as int]));
                assert(common_point(w.instrs@, v.instrs@, tw[i as int]));
                assert(d == spec_manhattan(tw[i as int]));
            }
            match best {
                None => {
                    best = Some(d);
                },
                Some(b) => {
                    if d < b {
                        best = Some(d);
                    }
                },
            }
        }
    }
    proof {
        match best {
            Some(d) => {
                assert forall|q: (int, int)|
                    #[trigger] common_point(w.instrs@, v.instrs@, q) implies spec_manhattan(q)
                    >= d by {
                    let t = choose|t: int| 0 <= t < tw.len() && #[trigger] tw[t] == q;
                    assert(on_trace(tv, tw[t]));
                }
            },
            None => {
                assert forall|q: (int, int)| !common_point(w.instrs@, v.instrs@, q) by {
                    if common_point(w.instrs@, v.instrs@, q) {
                        let t = choose|t: int| 0 <= t < tw.len() && #[trigger] tw[t] == q;
                        assert(on_trace(tv, tw[t]));
                    }
                }
            },
        }
    }
    best
}

/// The smallest combined number of steps at which the two wires reach a
/// crossing, if they cross at all.
pub fn find_fewest_steps_to_intersection(w: &Wire, v: &Wire) -> (r: Option<u64>)
    requires
        w.wf(),
        v.wf(),
    ensures
        r matches Some(d) ==> (exists|q: (int, int)|
            #[trigger] common_point(w.instrs@, v.instrs@, q) && spec_steps_to(
                spec_trace(w.instrs@),
                q,
            ) + spec_steps_to(spec_trace(v.instrs@), q) == d) && (forall|q: (int, int)|
            #[trigger] common_point(w.instrs@, v.instrs@, q) ==> spec_steps_to(
                spec_trace(w.instrs@),
                q,
            ) + spec_steps_to(spec_trace(v.instrs@), q) >= d),
        r is None ==> forall|q: (int, int)| !common_point(w.instrs@, v.instrs@, q),
{
    let w_pts = w.get_points();
    let v_pts = v.get_points();
    let ghost tw = spec_trace(w.instrs@);
    let ghost tv = spec_trace(v.instrs@);
    let mut best: Option<u64> = None;
    let n = w_pts.len();
    for i in 0..n
        invariant
            n == w_pts@.len(),
            n == tw.len(),
            tw == spec_trace(w.instrs@),
            tv == spec_trace(v.instrs@),
            w.wf(),
            v.wf(),
            forall|t: int|
                0 <= t < n ==> ((#[trigger] w_pts@[t]).0 as int, w_pts@[t].1 as int) == tw[t],
            v_pts@.len() == tv.len(),
            forall|t: int|
                0 <= t < tv.len() ==> ((#[trigger] v_pts@[t]).0 as int, v_pts@[t].1 as int)
                    == tv[t],
            match best {
                Some(d) => (exists|q: (int, int)|
                    #[trigger] common_point(w.instrs@, v.instrs@, q) && spec_steps_to(tw, q)
                        + spec_steps_to(tv, q) == d) && (forall|t: int|
                    0 <= t < i && on_trace(tv, #[trigger] tw[t]) ==> spec_steps_to(tw, tw[t])
                        + spec_steps_to(tv, tw[t]) >= d),
                None => forall|t: int| 0 <= t < i ==> !on_trace(tv, #[trigger] tw[t]),
            },
            tw.len() <= 100000000000,
            tv.len() <= 100000000000,
    {
        let p = w_pts[i];
        let mut hit = false;
        let mv = v_pts.len();
        for jj in 0..mv
            invariant
                mv == v_pts@.len(),
                mv == tv.len(),
                forall|t: int|
                    0 <= t < tv.len() ==> ((#[trigger] v_pts@[t]).0 as int, v_pts@[t].1 as int)
                        == tv[t],
                i < n,
                n == w_pts@.len(),
                n == tw.len(),
                forall|t: int|
                    0 <= t < n ==> ((#[trigger] w_pts@[t]).0 as int, w_pts@[t].1 as int) == tw[t],
                p == w_pts@[i as int],
                hit ==> on_trace(tv, tw[i as int]),
                !hit ==> forall|t: int| 0 <= t < jj ==> tv[t] != tw[i as int],
        {
            let e = v_pts[jj];
            if e.0 == p.0 && e.1 == p.1 {
                proof {
                    assert(tv[jj as int] == tw[i as int]);
                }
                hit = true;
            }
        }
        proof {
            if !hit {
                assert(!on_trace(tv, tw[i as int]));
            }
        }
        if hit {
            let dw = w.steps_to_intersection(&p);
            let dv = v.steps_to_intersection(&p);
            let d = dw + dv;
            proof {
                assert(on_trace(tw, tw[i as int]));
                assert(common_point(w.instrs@, v.instrs@, tw[i as int]));
            }
            match best {
                None => {
                    best = Some(d);
                },
                Some(b) => {
                    if d < b {
                        best = Some(d);
                    }
                },
            }
        }
    }
    proof {
        match best {
            Some(d) => {
                assert forall|q: (int, int)|
                    #[trigger] common_point(w.instrs@, v.instrs@, q) implies spec_steps_to(tw, q)
                    + spec_steps_to(tv, q) >= d by {
                    let t = choose|t: int| 0 <= t < tw.len() && #[trigger] tw[t] == q;
                    assert(on_trace(tv, tw[t]));
                }
            },
            None => {
                assert forall|q: (int, int)| !common_point(w.instrs@, v.instrs@, q) by {
                    if common_point(w.instrs@, v.instrs@, q) {
                        let t = choose|t: int| 0 <= t < tw.len() && #[trigger] tw[t] == q;
                        assert(on_trace(tv, tw[t]));
                    }
                }
            },
        }
    }
    best
}

} // verus!
