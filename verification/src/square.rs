use vstd::prelude::*;

verus! {

/// A cell of the initial puzzle grid: either an ordinary blank cell, or a
/// cape clue. A cape with value `1` is a plain circle (its arm length is
/// unspecified); a value `k >= 2` demands a white arm of exactly `k` cells,
/// the cape itself included, in exactly one axis direction.
#[derive(Clone, Copy, Debug, PartialEq, Eq, Structural)]
pub enum Square {
    Blank,
    Number(u8),
}

impl Square {
    /// A grid cell is well formed when a cape clue carries a positive value;
    /// the value `0` is reserved for encoding a blank cell.
    pub open spec fn wf(self) -> bool {
        match self {
            Square::Blank => true,
            Square::Number(k) => k >= 1,
        }
    }

    /// The clue value of a cell: `0` for a blank cell, the cape's number
    /// otherwise.
    pub open spec fn clue(self) -> int {
        match self {
            Square::Blank => 0,
            Square::Number(k) => k as int,
        }
    }

    /// Decodes a cell from its numeric form: `0` is a blank cell, any
    /// positive value a cape clue with that value.
    pub fn new(a: u8) -> (r: Square)
        ensures
            r == (if a == 0 { Square::Blank } else { Square::Number(a) }),
            r.wf(),
    {
        if a == 0 {
            Square::Blank
        } else {
            Square::Number(a)
        }
    }
}

/// The shape that a decoded puzzle grid is guaranteed to have: every row
/// as wide as the first, every cell well formed, and fewer than 10,000
/// cells in all.
pub open spec fn grid_ok(g: Seq<Vec<Square>>) -> bool {
    &&& forall|i: int| 0 <= i < g.len() ==> (#[trigger] g[i])@.len() == g[0]@.len()
    &&& forall|i: int, j: int|
        0 <= i < g.len() && 0 <= j < g[i]@.len() ==> (#[trigger] g[i]@[j]).wf()
    &&& g.len() == 0 || g.len() * g[0]@.len() < 10000
}

/// Do the bytes of `b`, from position `pos` on, start with `pat`?
fn has_at(b: &[u8], pos: usize, pat: &[u8]) -> (r: bool)
    requires
        pos <= b@.len(),
    ensures
        r ==> pos + pat@.len() <= b@.len(),
{
    if b.len() - pos < pat.len() {
        return false;
    }
    for t in 0..pat.len()
        invariant
            pos + pat@.len() <= b@.len(),
            b@.len() <= usize::MAX,
    {
        if b[pos + t] != pat[t] {
            return false;
        }
    }
    true
}

/// Reads a decimal number from the bytes of `b` between `from` and `to`,
/// as `str::parse` would: at least one digit, digits only, no overflow.
fn parse_decimal(b: &[u8], from: usize, to: usize) -> (r: Option<usize>)
    requires
        from <= to <= b@.len(),
{
    if from == to {
        return None;
    }
    let mut value: usize = 0;
    for t in from..to
        invariant
            from <= to <= b@.len(),
    {
        let c = b[t];
        if c < 48 || c > 57 {
            return None;
        }
        let d = (c - 48) as usize;
        if value > (usize::MAX - 9) / 10 {
            return None;
        }
        value = value * 10 + d;
    }
    Some(value)
}

/// Parses a URL like https://puzz.link/p?nurimisaki/9/9/.2zzzy
/// or https://puzz.link/p?nurimisaki_edit/9/9/.2zzzy into the clue grid it
/// encodes: the two dimension fields are read as columns first, then rows.
/// Any grid returned is rectangular, well formed, and under 10,000 cells.
pub fn parse_from_puzz_link(s: &str) -> (r: Option<Vec<Vec<Square>>>)
    ensures
        r is Some ==> grid_ok((r->0)@),
{
    let b = s.as_bytes();
    let prefix = "https://puzz.link/p?nurimisaki".as_bytes();
    if !has_at(b, 0, prefix) {
        return None;
    }
    let mut pos = prefix.len();
    let sep = "/".as_bytes();
    let edit = "_edit/".as_bytes();
    if has_at(b, pos, sep) {
        pos = pos + sep.len();
    } else if has_at(b, pos, edit) {
        pos = pos + edit.len();
    } else {
        return None;
    }
    // The remainder must hold exactly three fields separated by slashes:
    // columns, rows, and the cell data.
    let mut slash1 = pos;
    while slash1 < b.len() && b[slash1] != 47
        invariant
            pos <= slash1 <= b@.len(),
        decreases b@.len() - slash1,
    {
        slash1 = slash1 + 1;
    }
    if slash1 == b.len() {
        return None;
    }
    let mut slash2 = slash1 + 1;
    while slash2 < b.len() && b[slash2] != 47
        invariant
            slash1 < slash2 <= b@.len(),
        decreases b@.len() - slash2,
    {
        slash2 = slash2 + 1;
    }
    if slash2 == b.len() {
        return None;
    }
    let mut t = slash2 + 1;
    while t < b.len()
        invariant
            slash2 < t <= b@.len(),
        decreases b@.len() - t,
    {
        if b[t] == 47 {
            return None;
        }
        t = t + 1;
    }
    let m = match parse_decimal(b, pos, slash1) {
        Some(v) => v,
        None => { return None; },
    };
    let n = match parse_decimal(b, slash1 + 1, slash2) {
        Some(v) => v,
        None => { return None; },
    };
    if m != 0 && n > 9999 / m {
        return None;
    }
    if b.len() - (slash2 + 1) >= 10000 {
        return None;
    }
    let mut data: Vec<Square> = Vec::new();
    let mut next_2 = false;
    let mut carry: u8 = 0;
    for t in slash2 + 1..b.len()
        invariant
            slash2 < b@.len(),
            carry <= 240,
            forall|x: int| 0 <= x < data@.len() ==> (#[trigger] data@[x]).wf(),
    {
        let c = b[t];
        if c == 46 {
            // '.'
            data.push(Square::new(1));
        } else if c >= 103 && c <= 122 {
            // 'g'..='z': a run of blanks
            let len = (c - 102) as usize;
            for _x in 0..len
                invariant
                    forall|x: int| 0 <= x < data@.len() ==> (#[trigger] data@[x]).wf(),
            {
                data.push(Square::Blank);
            }
        } else if c == 45 {
            // '-': the next digit is the high half of a two-digit clue
            next_2 = true;
        } else if (c >= 48 && c <= 57) || (c >= 97 && c <= 102) {
            // a hexadecimal digit
            let dig = if c <= 57 {
                c - 48
            } else {
                c - 97 + 10
            };
            if next_2 {
                carry = 16 * dig;
                next_2 = false;
            } else {
                data.push(Square::new(dig + carry));
                carry = 0;
            }
        } else {
            return None;
        }
    }
    proof {
        if m != 0 {
            vstd::arithmetic::div_mod::lemma_fundamental_div_mod(9999int, m as int);
            vstd::arithmetic::div_mod::lemma_mod_bound(9999int, m as int);
            assert(n * m < 10000) by (nonlinear_arith)
                requires
                    1 <= m,
                    n <= 9999int / (m as int),
                    9999int == (m as int) * (9999int / (m as int)) + 9999int % (m as int),
                    0 <= 9999int % (m as int),
            ;
        } else {
            assert(n * m == 0) by (nonlinear_arith)
                requires
                    m == 0,
            ;
        }
    }
    let cells = n * m;
    if data.len() != cells {
        return None;
    }
    let mut ret: Vec<Vec<Square>> = Vec::new();
    for i in 0..n
        invariant
            cells == n * m,
            cells == data@.len(),
            forall|x: int| 0 <= x < data@.len() ==> (#[trigger] data@[x]).wf(),
            ret@.len() == i,
            forall|x: int| 0 <= x < i ==> (#[trigger] ret@[x])@.len() == m,
            forall|x: int, y: int|
                0 <= x < i && 0 <= y < m ==> (#[trigger] ret@[x]@[y]).wf(),
    {
        let mut row: Vec<Square> = Vec::new();
        for j in 0..m
            invariant
                cells == n * m,
                cells == data@.len(),
                i < n,
                forall|x: int| 0 <= x < data@.len() ==> (#[trigger] data@[x]).wf(),
                row@.len() == j,
                forall|y: int| 0 <= y < j ==> (#[trigger] row@[y]).wf(),
        {
            proof {
                assert(0 <= i * m + j < n * m) by (nonlinear_arith)
                    requires
                        0 <= i < n,
                        0 <= j < m,
                ;
            }
            row.push(data[i * m + j]);
        }
        ret.push(row);
    }
    proof {
        if n > 0 {
            assert(ret@[0]@.len() == m);
        }
    }
    Some(ret)
}

} // verus!
