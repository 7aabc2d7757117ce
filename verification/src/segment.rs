use vstd::prelude::*;
use vstd::string::*;

verus! {

/// The character of a decimal digit.
pub open spec fn digit_char(d: nat) -> char {
    if d == 0 {
        '0'
    } else if d == 1 {
        '1'
    } else if d == 2 {
        '2'
    } else if d == 3 {
        '3'
    } else if d == 4 {
        '4'
    } else if d == 5 {
        '5'
    } else if d == 6 {
        '6'
    } else if d == 7 {
        '7'
    } else if d == 8 {
        '8'
    } else {
        '9'
    }
}

/// A number in decimal digits, without leading zeros.
pub open spec fn decimal(n: nat) -> Seq<char>
    decreases n,
{
    if n < 10 {
        seq![digit_char(n)]
    } else {
        decimal(n / 10).push(digit_char(n % 10))
    }
}

/// The path of segment file `number` in the data directory `dir`: the file
/// is named by its number in decimal digits, and a `/` parts the name from
/// a directory that is not empty and does not end in one.
pub open spec fn segment_path_text(dir: Seq<char>, number: nat) -> Seq<char> {
    if dir.len() == 0 || dir.last() == '/' {
        dir + decimal(number)
    } else {
        dir + seq!['/'] + decimal(number)
    }
}

/// Two numbers with the same decimal digits are one number.
pub proof fn lemma_decimal_injective(a: nat, b: nat)
    requires
        decimal(a) == decimal(b),
    ensures
        a == b,
    decreases a,
{
    let da = decimal(a);
    let db = decimal(b);
    if a < 10 && b < 10 {
        assert(da[0] == digit_char(a));
        assert(db[0] == digit_char(b));
    } else if a < 10 {
        lemma_decimal_len(b / 10);
        assert(db.len() >= 2);
        assert(da.len() == 1);
    } else if b < 10 {
        lemma_decimal_len(a / 10);
        assert(da.len() >= 2);
        assert(db.len() == 1);
    } else {
        assert(da.last() == digit_char(a % 10));
        assert(db.last() == digit_char(b % 10));
        assert(da.drop_last() =~= decimal(a / 10));
        assert(db.drop_last() =~= decimal(b / 10));
        lemma_decimal_injective(a / 10, b / 10);
    }
}

/// A number has at least one decimal digit.
pub proof fn lemma_decimal_len(n: nat)
    ensures
        decimal(n).len() >= 1,
    decreases n,
{
    if n >= 10 {
        lemma_decimal_len(n / 10);
    }
}

/// Segment files with different numbers have different paths.
pub proof fn lemma_segment_path_injective(dir: Seq<char>, a: nat, b: nat)
    requires
        segment_path_text(dir, a) == segment_path_text(dir, b),
    ensures
        a == b,
{
    let prefix = if dir.len() == 0 || dir.last() == '/' {
        dir
    } else {
        dir + seq!['/']
    };
    let pa = prefix + decimal(a);
    let pb = prefix + decimal(b);
    assert(pa == pb);
    assert(decimal(a).len() == pa.len() - prefix.len());
    assert(decimal(b).len() == pb.len() - prefix.len());
    assert forall|i: int| 0 <= i < decimal(a).len() implies decimal(a)[i] == decimal(b)[i] by {
        assert(pa[prefix.len() + i] == decimal(a)[i]);
        assert(pb[prefix.len() + i] == decimal(b)[i]);
    }
    assert(decimal(a) =~= decimal(b));
    lemma_decimal_injective(a, b);
}

/// The text of one decimal digit.
fn digit_text(d: usize) -> (text: &'static str)
    requires
        d < 10,
    ensures
        text@ == seq![digit_char(d as nat)],
{
    proof {
        reveal_strlit("0");
        reveal_strlit("1");
        reveal_strlit("2");
        reveal_strlit("3");
        reveal_strlit("4");
        reveal_strlit("5");
        reveal_strlit("6");
        reveal_strlit("7");
        reveal_strlit("8");
        reveal_strlit("9");
    }
    let text = if d == 0 {
        "0"
    } else if d == 1 {
        "1"
    } else if d == 2 {
        "2"
    } else if d == 3 {
        "3"
    } else if d == 4 {
        "4"
    } else if d == 5 {
        "5"
    } else if d == 6 {
        "6"
    } else if d == 7 {
        "7"
    } else if d == 8 {
        "8"
    } else {
        "9"
    };
    assert(text@ =~= seq![digit_char(d as nat)]);
    text
}

/// Appends `number` in decimal digits to `text`.
fn append_decimal(text: &mut String, number: usize)
    ensures
        final(text)@ == old(text)@ + decimal(number as nat),
    decreases number,
{
    if number >= 10 {
        append_decimal(text, number / 10);
    }
    text.append(digit_text(number % 10));
    proof {
        if number >= 10 {
            assert(final(text)@ =~= old(text)@ + decimal(number as nat));
        } else {
            assert(final(text)@ =~= old(text)@ + decimal(number as nat));
        }
    }
}

/// The name of segment file `number`: the number in decimal digits.
pub fn segment_name(number: usize) -> (name: String)
    ensures
        name@ == decimal(number as nat),
{
    let mut name = String::new();
    append_decimal(&mut name, number);
    assert(name@ =~= decimal(number as nat));
    name
}

/// The path of segment file `number` in the data directory `dir`.
pub fn segment_path(dir: &String, number: usize) -> (path: String)
    ensures
        path@ == segment_path_text(dir@, number as nat),
{
    let mut path = dir.clone();
    let len = dir.as_str().unicode_len();
    if len > 0 && dir.as_str().get_char(len - 1) != '/' {
        proof {
            reveal_strlit("/");
        }
        path.append("/");
        assert(path@ =~= dir@ + seq!['/']);
    }
    append_decimal(&mut path, number);
    path
}

} // verus!
