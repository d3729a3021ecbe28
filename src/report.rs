//! The text of query results: warning lines, page lines, and the cells of the
//! co-occurrence table.

use vstd::prelude::*;

use crate::codec::{decimal, push_decimal};

verus! {

/// The concatenation of `parts`.
pub open spec fn concat_all(parts: Seq<Seq<u8>>) -> Seq<u8>
    decreases parts.len(),
{
    if parts.len() == 0 {
        Seq::empty()
    } else {
        concat_all(parts.drop_last()) + parts.last()
    }
}

/// `names` separated by ", ".
pub open spec fn join_names(names: Seq<Seq<u8>>) -> Seq<u8>
    decreases names.len(),
{
    if names.len() == 0 {
        Seq::empty()
    } else if names.len() == 1 {
        names[0]
    } else {
        join_names(names.drop_last()) + seq![44u8, 32] + names.last()
    }
}

/// "Error: User '"
pub open spec fn unknown_user_prefix() -> Seq<u8> {
    seq![69u8, 114, 114, 111, 114, 58, 32, 85, 115, 101, 114, 32, 39]
}

/// "' does not exist or has no edits" and a line feed.
pub open spec fn unknown_user_suffix() -> Seq<u8> {
    seq![
        39u8, 32, 100, 111, 101, 115, 32, 110, 111, 116, 32, 101, 120, 105, 115, 116, 32, 111,
        114, 32, 104, 97, 115, 32, 110, 111, 32, 101, 100, 105, 116, 115, 10,
    ]
}

/// The warning for a user that the index does not know.
pub open spec fn warning_line(user: Seq<u8>) -> Seq<u8> {
    unknown_user_prefix() + user + unknown_user_suffix()
}

/// "<name>: <count> (<editor>, <editor>, ...)" and a line feed.
pub open spec fn page_line(name: Seq<u8>, editors: Seq<Seq<u8>>) -> Seq<u8> {
    name + seq![58u8, 32] + decimal(editors.len()) + seq![32u8, 40] + join_names(editors) + seq![
        41u8,
        10,
    ]
}

/// The decimal digits of `n` as characters.
pub open spec fn decimal_chars(n: nat) -> Seq<char> {
    decimal(n).map_values(|d: u8| d as char)
}

/// The name for the text of a table with these rows of cells.
pub uninterp spec fn table_text(rows: Seq<Seq<Seq<char>>>) -> Seq<char>;

/// The characters with the Unicode property White_Space.
pub open spec fn is_white_space(c: char) -> bool {
    let v = c as u32;
    (0x9 <= v <= 0xd) || v == 0x20 || v == 0x85 || v == 0xa0 || v == 0x1680 || (0x2000 <= v
        <= 0x200a) || v == 0x2028 || v == 0x2029 || v == 0x202f || v == 0x205f || v == 0x3000
}

/// `s` without its leading white space.
pub open spec fn trim_start(s: Seq<char>) -> Seq<char>
    decreases s.len(),
{
    if s.len() > 0 && is_white_space(s[0]) {
        trim_start(s.drop_first())
    } else {
        s
    }
}

/// `s` without its trailing white space.
pub open spec fn trim_end(s: Seq<char>) -> Seq<char>
    decreases s.len(),
{
    if s.len() > 0 && is_white_space(s.last()) {
        trim_end(s.drop_last())
    } else {
        s
    }
}

/// A user name without its leading and trailing white space.
pub open spec fn trimmed(s: Seq<char>) -> Seq<char> {
    trim_end(trim_start(s))
}

/// The rows of cells in mathematical terms.
pub open spec fn cells_view(rows: Seq<Vec<String>>) -> Seq<Seq<Seq<char>>> {
    rows.map_values(|row: Vec<String>| row@.map_values(|c: String| c@))
}

/// Relies on prettytable: a `Table` made from rows of cells, and its
/// `Display`, which prints it without styles; the text depends on the cells
/// alone.
#[verifier::external_body]
pub(crate) fn render_table(rows: &Vec<Vec<String>>) -> (r: String)
    ensures
        r@ == table_text(cells_view(rows@)),
{
    rows.iter().collect::<prettytable::Table>().to_string()
}

/// Relies on str::trim: the name without leading and trailing characters
/// that `char::is_whitespace` accepts, which are those with the Unicode
/// property White_Space.
#[verifier::external_body]
pub(crate) fn trim_name(s: &String) -> (r: String)
    ensures
        r@ == trimmed(s@),
{
    s.trim().to_string()
}

/// Appends `b`.
pub fn push_all(out: &mut Vec<u8>, b: &[u8])
    ensures
        final(out)@ == old(out)@ + b@,
{
    let mut i: usize = 0;
    while i < b.len()
        invariant
            0 <= i <= b@.len(),
            out@ == old(out)@ + b@.take(i as int),
        decreases b@.len() - i,
    {
        out.push(b[i]);
        assert(b@.take(i + 1) =~= b@.take(i as int).push(b@[i as int]));
        i = i + 1;
    }
    assert(b@.take(i as int) =~= b@);
}

/// Appends the warning for an unknown user.
pub fn push_warning(out: &mut Vec<u8>, user: &[u8])
    ensures
        final(out)@ == old(out)@ + warning_line(user@),
{
    let prefix = vec![69u8, 114, 114, 111, 114, 58, 32, 85, 115, 101, 114, 32, 39];
    let suffix = vec![
        39u8, 32, 100, 111, 101, 115, 32, 110, 111, 116, 32, 101, 120, 105, 115, 116, 32, 111,
        114, 32, 104, 97, 115, 32, 110, 111, 32, 101, 100, 105, 116, 115, 10,
    ];
    assert(prefix@ =~= unknown_user_prefix());
    assert(suffix@ =~= unknown_user_suffix());
    push_all(out, prefix.as_slice());
    push_all(out, user);
    push_all(out, suffix.as_slice());
    assert(final(out)@ =~= old(out)@ + warning_line(user@));
}

/// Appends the line of a page with its editors.
pub fn push_page_line(out: &mut Vec<u8>, name: &[u8], editors: &Vec<&[u8]>)
    ensures
        final(out)@ == old(out)@ + page_line(
            name@,
            editors@.map_values(|e: &[u8]| e@),
        ),
{
    let ghost names = editors@.map_values(|e: &[u8]| e@);
    push_all(out, name);
    out.push(58u8);
    out.push(32u8);
    push_decimal(out, editors.len() as u64);
    out.push(32u8);
    out.push(40u8);
    let ghost before = out@;
    let mut i: usize = 0;
    while i < editors.len()
        invariant
            0 <= i <= editors@.len(),
            names == editors@.map_values(|e: &[u8]| e@),
            out@ == before + join_names(names.take(i as int)),
        decreases editors@.len() - i,
    {
        assert(names.take(i + 1).drop_last() =~= names.take(i as int));
        if i > 0 {
            out.push(44u8);
            out.push(32u8);
        }
        push_all(out, editors[i]);
        proof {
            if i == 0 {
                assert(out@ =~= before + join_names(names.take(1)));
            } else {
                assert(out@ =~= before + join_names(names.take(i + 1)));
            }
        }
        i = i + 1;
    }
    assert(names.take(i as int) =~= names);
    out.push(41u8);
    out.push(10u8);
    assert(final(out)@ =~= old(out)@ + page_line(name@, names));
}

/// The text of a decimal digit.
fn digit_text(d: u64) -> (r: &'static str)
    requires
        d < 10,
    ensures
        r@ == seq![(48 + d) as char],
{
    proof {
        reveal_strlit("0");
        reveal_strlit("1");
        reveal_strlit("2");
        reveal_strlit("3");
        reveal_strlit("4");
        reveal_strlit("5");
        reveal_strlit("6");
        reveal_strlit("7");
        reveal_strlit("8");
        reveal_strlit("9");
    }
    if d == 0 {
        "0"
    } else if d == 1 {
        "1"
    } else if d == 2 {
        "2"
    } else if d == 3 {
        "3"
    } else if d == 4 {
        "4"
    } else if d == 5 {
        "5"
    } else if d == 6 {
        "6"
    } else if d == 7 {
        "7"
    } else if d == 8 {
        "8"
    } else {
        "9"
    }
}

/// Appends the decimal digits of `n` to a string.
fn append_decimal(s: &mut String, n: u64)
    ensures
        final(s)@ == old(s)@ + decimal_chars(n as nat),
    decreases n,
{
    if n >= 10 {
        append_decimal(s, n / 10);
    }
    s.append(digit_text(n % 10));
    proof {
        let d = decimal(n as nat);
        if n >= 10 {
            assert(d == decimal((n / 10) as nat).push((48 + n % 10) as u8));
            assert(decimal_chars(n as nat) =~= decimal_chars((n / 10) as nat).push((48 + n % 10) as char));
        } else {
            assert(decimal_chars(n as nat) =~= seq![(48 + n) as char]);
        }
    }
    assert(final(s)@ =~= old(s)@ + decimal_chars(n as nat));
}

/// The decimal digits of `n` as a string.
pub fn decimal_string(n: u64) -> (r: String)
    ensures
        r@ == decimal_chars(n as nat),
{
    let mut s = String::new();
    append_decimal(&mut s, n);
    assert(s@ =~= decimal_chars(n as nat));
    s
}

} // verus!
