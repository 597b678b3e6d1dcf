//! Small decisions of the viewer: selection toggling and number formatting.

use vstd::prelude::*;

use crate::text::push_char;
use crate::tree::TreeView;

verus! {

/// Which of the buttons under the map were pressed in a frame.
#[derive(Clone, Copy, Debug, PartialEq, Eq, Structural)]
pub struct PressedButtons {
    pub refresh: bool,
    pub copied: bool,
    pub squareness: bool,
}

/// Two selections name the same nodes, with the same sizes, in order.
pub open spec fn same_selection(a: Seq<TreeView>, b: Seq<TreeView>) -> bool {
    &&& a.len() == b.len()
    &&& forall|i: int|
        0 <= i < a.len() ==> (#[trigger] a[i]).name@ == b[i].name@ && a[i].size == b[i].size
}

fn selections_equal(a: &Vec<TreeView>, b: &Vec<TreeView>) -> (r: bool)
    ensures
        r == same_selection(a@, b@),
{
    if a.len() != b.len() {
        return false;
    }
    let mut i: usize = 0;
    while i < a.len()
        invariant
            a@.len() == b@.len(),
            i <= a@.len(),
            forall|j: int|
                0 <= j < i ==> (#[trigger] a@[j]).name@ == b@[j].name@ && a@[j].size == b@[j].size,
        decreases a@.len() - i,
    {
        if !(a[i] == b[i]) {
            return false;
        }
        i = i + 1;
    }
    true
}

/// Selecting what is already selected clears the selection; selecting
/// anything else replaces it.
pub fn set_if_different_or_unset_if_same(
    selected: &mut Option<Vec<TreeView>>,
    new_nodes: Vec<TreeView>,
)
    ensures
        match *old(selected) {
            Some(s) => if same_selection(s@, new_nodes@) {
                *final(selected) is None
            } else {
                *final(selected) == Some(new_nodes)
            },
            None => *final(selected) == Some(new_nodes),
        },
{
    let same = match selected {
        Some(current) => selections_equal(current, &new_nodes),
        None => false,
    };
    if same {
        *selected = None;
    } else {
        *selected = Some(new_nodes);
    }
}

/// The decimal digits of `n`.
pub open spec fn digits(n: nat) -> Seq<char>
    decreases n,
{
    if n < 10 {
        seq![digit_char(n)]
    } else {
        digits(n / 10).push(digit_char(n % 10))
    }
}

pub open spec fn digit_char(d: nat) -> char {
    (('0' as nat) + d) as char
}

/// How `i64::to_string` writes `v`: a minus sign when negative, then the digits.
pub open spec fn decimal(v: int) -> Seq<char> {
    if v < 0 {
        seq!['-'] + digits((-v) as nat)
    } else {
        digits(v as nat)
    }
}

/// `s` with a space before each group of three characters counted from the
/// right, but the leftmost group.
pub open spec fn grouped(s: Seq<char>) -> Seq<char>
    decreases s.len(),
{
    if s.len() <= 3 {
        s
    } else {
        grouped(s.subrange(0, s.len() - 3)) + seq![' '] + s.subrange(s.len() - 3, s.len() as int)
    }
}

fn digits_of(n: u64) -> (r: Vec<char>)
    ensures
        r@ == digits(n as nat),
    decreases n,
{
    let d = (n % 10) as u32;
    let c = char_of_digit(d);
    if n < 10 {
        let mut v: Vec<char> = Vec::new();
        v.push(c);
        v
    } else {
        let mut v = digits_of(n / 10);
        v.push(c);
        v
    }
}

fn char_of_digit(d: u32) -> (c: char)
    requires
        d < 10,
    ensures
        c == digit_char(d as nat),
{
    if d == 0 {
        '0'
    } else if d == 1 {
        '1'
    } else if d == 2 {
        '2'
    } else if d == 3 {
        '3'
    } else if d == 4 {
        '4'
    } else if d == 5 {
        '5'
    } else if d == 6 {
        '6'
    } else if d == 7 {
        '7'
    } else if d == 8 {
        '8'
    } else {
        '9'
    }
}

/// `value` with its digits in groups of three, then a space and `units`.
pub fn format_units(value: i64, units: &str) -> (r: String)
    ensures
        r@ == grouped(decimal(value as int)) + seq![' '] + units@,
{
    let magnitude: u64 = if value < 0 {
        (-(value as i128)) as u64
    } else {
        value as u64
    };
    let ds = digits_of(magnitude);
    let mut text: Vec<char> = Vec::new();
    if value < 0 {
        text.push('-');
    }
    let mut i: usize = 0;
    while i < ds.len()
        invariant
            i <= ds@.len(),
            value < 0 ==> text@ == seq!['-'] + ds@.subrange(0, i as int),
            value >= 0 ==> text@ == ds@.subrange(0, i as int),
        decreases ds@.len() - i,
    {
        text.push(ds[i]);
        i = i + 1;
    }
    assert(ds@.subrange(0, ds@.len() as int) =~= ds@);
    assert(text@ =~= decimal(value as int));
    let n = text.len();
    let mut out = String::new();
    let mut j: usize = 0;
    let first = n % 3;
    while j < n
        invariant
            n == text@.len(),
            j <= n,
            first == n % 3,
            j == 0 || j >= first,
            j != 0 ==> (j - first) % 3 == 0,
            out@ == grouped(text@.subrange(0, j as int)),
        decreases n - j,
    {
        assert(j == 0 || n - j >= 3);
        let end = if j == 0 && first != 0 {
            first
        } else {
            j + 3
        };
        if j != 0 {
            push_char(&mut out, ' ');
        }
        let ghost before = out@;
        let mut k = j;
        while k < end
            invariant
                n == text@.len(),
                j <= k <= end <= n,
                out@ == before + text@.subrange(j as int, k as int),
            decreases end - k,
        {
            push_char(&mut out, text[k]);
            assert(text@.subrange(j as int, k + 1) =~= text@.subrange(j as int, k as int).push(text@[k as int]));
            k = k + 1;
        }
        proof {
            let t = text@.subrange(0, end as int);
            if j == 0 {
                assert(t =~= text@.subrange(0, end as int));
                assert(out@ =~= t);
            } else {
                assert(t.subrange(0, t.len() - 3) =~= text@.subrange(0, j as int));
                assert(t.subrange(t.len() - 3, t.len() as int) =~= text@.subrange(j as int, end as int));
                assert(out@ =~= grouped(t));
            }
        }
        j = end;
    }
    assert(text@.subrange(0, n as int) =~= text@);
    proof {
        reveal_strlit(" ");
    }
    push_char(&mut out, ' ');
    let r = out.concat(units);
    r
}

} // verus!
