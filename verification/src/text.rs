//! Text of cells for display: candidate lists and centred fields.
use vstd::prelude::*;
use crate::cell::Cell;

verus! {

/// The one-character text of digit `d`.
pub open spec fn digit_text(d: usize) -> Seq<char> {
    seq![(d + 48) as char]
}

/// The digits of `ds` written out and separated by `", "`.
pub open spec fn digits_text(ds: Seq<usize>) -> Seq<char>
    decreases ds.len(),
{
    if ds.len() == 0 {
        Seq::empty()
    } else if ds.len() == 1 {
        digit_text(ds[0])
    } else {
        digits_text(ds.drop_last()) + ", "@ + digit_text(ds.last())
    }
}

/// The digits of `ds` written out one after the other.
pub open spec fn digits_run(ds: Seq<usize>) -> Seq<char>
    decreases ds.len(),
{
    if ds.len() == 0 {
        Seq::empty()
    } else {
        digits_run(ds.drop_last()) + digit_text(ds.last())
    }
}

/// How a cell is shown: its digits one after the other, or a dot for a cell with all nine.
pub open spec fn label_text(c: Cell) -> Seq<char> {
    if digits_run(c.digit_list()) == "123456789"@ {
        "."@
    } else {
        digits_run(c.digit_list())
    }
}

/// `n` spaces.
pub open spec fn spaces(n: nat) -> Seq<char> {
    Seq::new(n, |i: int| ' ')
}

/// `s` centred in a field of `width` characters: the padding is split in two, the extra
/// space going to the right; a text as wide as the field or wider is left as it is.
pub open spec fn centered(s: Seq<char>, width: nat) -> Seq<char> {
    if s.len() >= width {
        s
    } else {
        let pad = (width - s.len()) as nat;
        spaces(pad / 2) + s + spaces((pad - pad / 2) as nat)
    }
}

/// Returns the text of digit `d`.
fn digit_str(d: usize) -> (text: &'static str)
    requires
        1 <= d <= 9,
    ensures
        text@ == digit_text(d),
{
    if d == 1 {
        proof {
            reveal_strlit("1");
        }
        "1"
    } else if d == 2 {
        proof {
            reveal_strlit("2");
        }
        "2"
    } else if d == 3 {
        proof {
            reveal_strlit("3");
        }
        "3"
    } else if d == 4 {
        proof {
            reveal_strlit("4");
        }
        "4"
    } else if d == 5 {
        proof {
            reveal_strlit("5");
        }
        "5"
    } else if d == 6 {
        proof {
            reveal_strlit("6");
        }
        "6"
    } else if d == 7 {
        proof {
            reveal_strlit("7");
        }
        "7"
    } else if d == 8 {
        proof {
            reveal_strlit("8");
        }
        "8"
    } else {
        proof {
            reveal_strlit("9");
        }
        "9"
    }
}

impl Cell {
    /// Returns the candidates of the cell, in increasing order, separated by `", "`.
    pub fn to_string(&self) -> (text: String)
        ensures
            text@ == digits_text(self.digit_list()),
    {
        let d = self.digits();
        proof {
            crate::search::lemma_digit_seq(self.0, 10, 0);
        }
        let mut text = String::new();
        let mut i: usize = 0;
        while i < d.len()
            invariant
                i <= d.len(),
                d@ == self.digit_list(),
                forall|t: int| 0 <= t < d.len() ==> 1 <= #[trigger] d@[t] <= 9,
                text@ == digits_text(d@.take(i as int)),
            decreases d.len() - i,
        {
            if i > 0 {
                vstd::string::StringExecFns::append(&mut text, ", ");
            }
            vstd::string::StringExecFns::append(&mut text, digit_str(d[i]));
            proof {
                reveal_strlit(", ");
                assert(d@.take(i + 1).drop_last() =~= d@.take(i as int));
                assert(d@.take(i + 1).last() == d@[i as int]);
                if i == 0 {
                    assert(d@.take(1) =~= seq![d@[0]]);
                }
            }
            i += 1;
        }
        proof {
            assert(d@.take(d.len() as int) =~= d@);
        }
        text
    }
}

impl Cell {
    /// Returns how the cell is shown: its digits one after the other, or a dot when it has
    /// all nine.
    pub fn label(&self) -> (text: String)
        ensures
            text@ == label_text(*self),
    {
        let d = self.digits();
        proof {
            crate::search::lemma_digit_seq(self.0, 10, 0);
        }
        let mut run = String::new();
        let mut i: usize = 0;
        while i < d.len()
            invariant
                i <= d.len(),
                d@ == self.digit_list(),
                forall|t: int| 0 <= t < d.len() ==> 1 <= #[trigger] d@[t] <= 9,
                run@ == digits_run(d@.take(i as int)),
            decreases d.len() - i,
        {
            vstd::string::StringExecFns::append(&mut run, digit_str(d[i]));
            proof {
                assert(d@.take(i + 1).drop_last() =~= d@.take(i as int));
                assert(d@.take(i + 1).last() == d@[i as int]);
            }
            i += 1;
        }
        proof {
            assert(d@.take(d.len() as int) =~= d@);
        }
        let all = <String as vstd::string::StringExecFns>::from_str("123456789");
        if run == all {
            <String as vstd::string::StringExecFns>::from_str(".")
        } else {
            run
        }
    }
}

/// Returns `s` centred in a field of `width` characters, padded with spaces; the extra space
/// of an odd padding goes to the right.
pub fn center(s: &str, width: usize) -> (text: String)
    ensures
        text@ == centered(s@, width as nat),
{
    let len = s.unicode_len();
    let mut text = String::new();
    if len >= width {
        vstd::string::StringExecFns::append(&mut text, s);
        return text;
    }
    let pad = width - len;
    let left = pad / 2;
    let mut i: usize = 0;
    while i < left
        invariant
            i <= left,
            text@ == spaces(i as nat),
        decreases left - i,
    {
        vstd::string::StringExecFns::append(&mut text, " ");
        proof {
            reveal_strlit(" ");
            assert(text@ =~= spaces((i + 1) as nat));
        }
        i += 1;
    }
    vstd::string::StringExecFns::append(&mut text, s);
    let ghost head = text@;
    let right = pad - left;
    let mut j: usize = 0;
    while j < right
        invariant
            j <= right,
            text@ == head + spaces(j as nat),
        decreases right - j,
    {
        vstd::string::StringExecFns::append(&mut text, " ");
        proof {
            reveal_strlit(" ");
            assert(text@ =~= head + spaces((j + 1) as nat));
        }
        j += 1;
    }
    proof {
        assert(head =~= spaces(left as nat) + s@);
    }
    text
}

} // verus!
