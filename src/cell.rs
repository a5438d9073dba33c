use vstd::prelude::*;

verus! {

/// The content of one square of a sudoku grid: empty, or a digit from 1 to 9.
#[derive(Debug, Default, Clone, Copy, PartialEq, Eq, Structural, Hash)]
pub enum CellValue {
    #[default]
    Empty,
    One,
    Two,
    Three,
    Four,
    Five,
    Six,
    Seven,
    Eight,
    Nine,
}

/// Earlier name of `CellValue`, kept for callers that still use it.
pub type SudokuCell = CellValue;

/// One square of a board.
#[derive(Debug, Default, Clone, Copy, PartialEq, Eq, Structural)]
pub struct Cell {
    pub value: CellValue,
}

/// The digit a value stands for; 0 for `Empty`.
pub open spec fn digit(v: CellValue) -> int {
    match v {
        CellValue::Empty => 0,
        CellValue::One => 1,
        CellValue::Two => 2,
        CellValue::Three => 3,
        CellValue::Four => 4,
        CellValue::Five => 5,
        CellValue::Six => 6,
        CellValue::Seven => 7,
        CellValue::Eight => 8,
        CellValue::Nine => 9,
    }
}

/// The value a number stands for: the digit itself on 1..=9, `Empty` on anything else.
pub open spec fn value_of(n: int) -> CellValue {
    if n == 1 {
        CellValue::One
    } else if n == 2 {
        CellValue::Two
    } else if n == 3 {
        CellValue::Three
    } else if n == 4 {
        CellValue::Four
    } else if n == 5 {
        CellValue::Five
    } else if n == 6 {
        CellValue::Six
    } else if n == 7 {
        CellValue::Seven
    } else if n == 8 {
        CellValue::Eight
    } else if n == 9 {
        CellValue::Nine
    } else {
        CellValue::Empty
    }
}

/// The character a value is written as: `_` for `Empty`, else its decimal digit.
pub open spec fn display_char(v: CellValue) -> char {
    match v {
        CellValue::Empty => '_',
        CellValue::One => '1',
        CellValue::Two => '2',
        CellValue::Three => '3',
        CellValue::Four => '4',
        CellValue::Five => '5',
        CellValue::Six => '6',
        CellValue::Seven => '7',
        CellValue::Eight => '8',
        CellValue::Nine => '9',
    }
}

/// Every value is the value of its own digit, and filled values are told apart by their digits.
pub proof fn lemma_digit_value(v: CellValue)
    ensures
        value_of(digit(v)) == v,
        0 <= digit(v) <= 9,
        (digit(v) == 0) == (v is Empty),
{
}

/// A number from 1 to 9 stands for the value of that digit; every other number for `Empty`.
pub proof fn lemma_value_of_digits(n: int)
    ensures
        1 <= n <= 9 ==> digit(value_of(n)) == n,
        !(1 <= n <= 9) ==> value_of(n) is Empty,
{
}

/// Whether the digits of `s` strictly increase; such a sequence lists a set of values once each, in order.
pub open spec fn strictly_ascending(s: Seq<CellValue>) -> bool {
    forall|i: int, j: int| 0 <= i < j < s.len() ==> digit(s[i]) < digit(s[j])
}

/// Appending a value above all those of an ascending sequence keeps it ascending and adds just that value.
pub proof fn lemma_push_ascending(s: Seq<CellValue>, v: CellValue)
    requires
        strictly_ascending(s),
        forall|k: int| 0 <= k < s.len() ==> digit(#[trigger] s[k]) < digit(v),
    ensures
        strictly_ascending(s.push(v)),
        forall|w: CellValue| #[trigger] s.push(v).contains(w) <==> (s.contains(w) || w == v),
{
    assert forall|w: CellValue| #[trigger] s.push(v).contains(w) <==> (s.contains(w) || w == v) by {
        if s.push(v).contains(w) && w != v {
            let k = choose|k: int| 0 <= k < s.push(v).len() && s.push(v)[k] == w;
            assert(s[k] == w);
        }
        if w == v {
            assert(s.push(v)[s.len() as int] == v);
        }
        if s.contains(w) {
            let k = choose|k: int| 0 <= k < s.len() && s[k] == w;
            assert(s.push(v)[k] == w);
        }
    }
}

/// The distinct filled values among `values`, in ascending order: `Empty` entries are left out.
pub fn value_set(values: &[CellValue]) -> (r: Vec<CellValue>)
    ensures
        strictly_ascending(r@),
        forall|v: CellValue| r@.contains(v) <==> (!(v is Empty) && values@.contains(v)),
{
    let mut seen: [bool; 10] = [false; 10];
    for i in 0..values.len()
        invariant
            forall|v: CellValue|
                !(v is Empty) ==> (#[trigger] seen[digit(v)] <==> exists|k: int|
                    0 <= k < i && values@[k] == v),
    {
        let d = values[i].to_digit();
        seen[d as usize] = true;
        assert forall|v: CellValue| !(v is Empty) implies (#[trigger] seen[digit(v)] <==> exists|k: int|
                    0 <= k < i + 1 && values@[k] == v) by {
            if digit(v) == d && values@[i as int] != v {
                lemma_digit_value(v);
                lemma_digit_value(values@[i as int]);
            }
            if values@[i as int] == v {
                assert(0 <= i < i + 1 && values@[i as int] == v);
            }
        }
    }
    let mut r: Vec<CellValue> = Vec::new();
    for d in 1..10u8
        invariant
            forall|v: CellValue|
                !(v is Empty) ==> (#[trigger] seen[digit(v)] <==> values@.contains(v)),
            strictly_ascending(r@),
            forall|k: int| 0 <= k < r@.len() ==> 1 <= digit(#[trigger] r@[k]) < d,
            forall|v: CellValue| r@.contains(v) <==> (1 <= digit(v) < d && #[trigger] seen[digit(v)]),
    {
        if seen[d as usize] {
            let v = CellValue::from(d);
            assert(digit(v) == d);
            let ghost old_r = r@;
            r.push(v);
            assert forall|w: CellValue| r@.contains(w) <==> (1 <= digit(w) < d + 1 && #[trigger] seen[digit(w)]) by {
                if r@.contains(w) && w != v {
                    let k = choose|k: int| 0 <= k < r@.len() && r@[k] == w;
                    assert(old_r[k] == w);
                }
                if digit(w) == d && w != v {
                    lemma_digit_value(v);
                    lemma_digit_value(w);
                }
                if w == v {
                    assert(r@[old_r.len() as int] == v);
                }
                if old_r.contains(w) {
                    let k = choose|k: int| 0 <= k < old_r.len() && old_r[k] == w;
                    assert(r@[k] == w);
                }
            }
        } else {
            assert forall|w: CellValue| r@.contains(w) <==> (1 <= digit(w) < d + 1 && #[trigger] seen[digit(w)]) by {
                if digit(w) == d {
                    lemma_digit_value(w);
                }
            }
        }
    }
    assert forall|v: CellValue| r@.contains(v) <==> (!(v is Empty) && values@.contains(v)) by {
        lemma_digit_value(v);
        if !(v is Empty) {
            assert(seen[digit(v)] <==> values@.contains(v));
            assert(r@.contains(v) <==> (1 <= digit(v) < 10 && seen[digit(v)]));
        }
    }
    r
}

impl CellValue {
    /// Whether this square holds no digit.
    pub fn is_empty(&self) -> (r: bool)
        ensures
            r == (*self is Empty),
    {
        match self {
            CellValue::Empty => true,
            _ => false,
        }
    }

    /// The digit as a number; 0 for `Empty`.
    pub fn to_digit(&self) -> (r: u8)
        ensures
            r as int == digit(*self),
    {
        match self {
            CellValue::Empty => 0,
            CellValue::One => 1,
            CellValue::Two => 2,
            CellValue::Three => 3,
            CellValue::Four => 4,
            CellValue::Five => 5,
            CellValue::Six => 6,
            CellValue::Seven => 7,
            CellValue::Eight => 8,
            CellValue::Nine => 9,
        }
    }

    /// The one-character text of this value, as a string slice.
    pub fn symbol(&self) -> (r: &'static str)
        ensures
            r@ == seq![display_char(*self)],
    {
        proof {
            reveal_strlit("_");
            reveal_strlit("1");
            reveal_strlit("2");
            reveal_strlit("3");
            reveal_strlit("4");
            reveal_strlit("5");
            reveal_strlit("6");
            reveal_strlit("7");
            reveal_strlit("8");
            reveal_strlit("9");
        }
        match self {
            CellValue::Empty => "_",
            CellValue::One => "1",
            CellValue::Two => "2",
            CellValue::Three => "3",
            CellValue::Four => "4",
            CellValue::Five => "5",
            CellValue::Six => "6",
            CellValue::Seven => "7",
            CellValue::Eight => "8",
            CellValue::Nine => "9",
        }
    }

    /// The text of this value: `_` for `Empty`, else its decimal digit.
    pub fn to_string(&self) -> (r: String)
        ensures
            r@ == seq![display_char(*self)],
    {
        String::from_str(self.symbol())
    }
}

impl From<u8> for CellValue {
    fn from(n: u8) -> (r: CellValue) {
        match n {
            1 => CellValue::One,
            2 => CellValue::Two,
            3 => CellValue::Three,
            4 => CellValue::Four,
            5 => CellValue::Five,
            6 => CellValue::Six,
            7 => CellValue::Seven,
            8 => CellValue::Eight,
            9 => CellValue::Nine,
            _ => CellValue::Empty,
        }
    }
}

impl vstd::std_specs::convert::FromSpecImpl<u8> for CellValue {
    open spec fn obeys_from_spec() -> bool {
        true
    }

    open spec fn from_spec(n: u8) -> CellValue {
        value_of(n as int)
    }
}

} // verus!
