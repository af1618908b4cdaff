//! Compact JSON text for values: what `Print` writes after `OUTPUT: `
//! and what error messages quote as the offending value.

use vstd::prelude::*;
use crate::json::{Json, JsonV, views_of, views_of_entries, lemma_views_of, lemma_views_of_entries};

verus! {

broadcast use
    vstd::seq::axiom_seq_index_decreases,
    vstd::seq::axiom_seq_subrange_decreases,
    vstd::std_specs::vec::axiom_vec_decreases_to_view;

/// The decimal digit character for `d` (last digit of a number).
pub open spec fn digit_char(d: nat) -> char {
    if d == 0 {
        '0'
    } else if d == 1 {
        '1'
    } else if d == 2 {
        '2'
    } else if d == 3 {
        '3'
    } else if d == 4 {
        '4'
    } else if d == 5 {
        '5'
    } else if d == 6 {
        '6'
    } else if d == 7 {
        '7'
    } else if d == 8 {
        '8'
    } else {
        '9'
    }
}

/// Decimal digits of `m`, most significant first; empty for zero.
pub open spec fn dec_digits(m: nat) -> Seq<char>
    decreases m,
{
    if m == 0 {
        Seq::empty()
    } else {
        dec_digits(m / 10).push(digit_char(m % 10))
    }
}

/// Decimal text of an integer, with a leading minus for negatives.
pub open spec fn render_int(n: int) -> Seq<char> {
    if n == 0 {
        seq!['0']
    } else if n > 0 {
        dec_digits(n as nat)
    } else {
        seq!['-'] + dec_digits((-n) as nat)
    }
}

/// The lowercase hexadecimal digit for a value below sixteen.
pub open spec fn hex_digit(d: nat) -> char {
    if d < 10 {
        digit_char(d)
    } else if d == 10 {
        'a'
    } else if d == 11 {
        'b'
    } else if d == 12 {
        'c'
    } else if d == 13 {
        'd'
    } else if d == 14 {
        'e'
    } else {
        'f'
    }
}

/// How one character appears inside a quoted JSON string: the named
/// escapes for the common control characters, `\u00XX` for the other
/// control characters, and the character itself otherwise.
pub open spec fn esc_char(c: char) -> Seq<char> {
    if c == '"' {
        seq!['\\', '"']
    } else if c == '\\' {
        seq!['\\', '\\']
    } else if c == '\n' {
        seq!['\\', 'n']
    } else if c == '\t' {
        seq!['\\', 't']
    } else if c == '\r' {
        seq!['\\', 'r']
    } else if (c as u32) < 0x20 {
        seq!['\\', 'u', '0', '0', hex_digit(((c as u32) / 16) as nat), hex_digit(
            ((c as u32) % 16) as nat,
        )]
    } else {
        seq![c]
    }
}

/// The one-character slice holding a lowercase hexadecimal digit.
fn hex_str(d: u32) -> (r: &'static str)
    requires
        d < 16,
    ensures
        r@ == seq![hex_digit(d as nat)],
{
    let r: &'static str = if d == 0 {
        "0"
    } else if d == 1 {
        "1"
    } else if d == 2 {
        "2"
    } else if d == 3 {
        "3"
    } else if d == 4 {
        "4"
    } else if d == 5 {
        "5"
    } else if d == 6 {
        "6"
    } else if d == 7 {
        "7"
    } else if d == 8 {
        "8"
    } else if d == 9 {
        "9"
    } else if d == 10 {
        "a"
    } else if d == 11 {
        "b"
    } else if d == 12 {
        "c"
    } else if d == 13 {
        "d"
    } else if d == 14 {
        "e"
    } else {
        "f"
    };
    proof {
        reveal_strlit("0");
        reveal_strlit("1");
        reveal_strlit("2");
        reveal_strlit("3");
        reveal_strlit("4");
        reveal_strlit("5");
        reveal_strlit("6");
        reveal_strlit("7");
        reveal_strlit("8");
        reveal_strlit("9");
        reveal_strlit("a");
        reveal_strlit("b");
        reveal_strlit("c");
        reveal_strlit("d");
        reveal_strlit("e");
        reveal_strlit("f");
        assert(r@ =~= seq![hex_digit(d as nat)]);
    }
    r
}

/// The body of a quoted JSON string: every character escaped as needed.
pub open spec fn esc_str(s: Seq<char>) -> Seq<char>
    decreases s,
{
    if s.len() == 0 {
        Seq::empty()
    } else {
        esc_str(s.subrange(0, s.len() - 1)) + esc_char(s[s.len() - 1])
    }
}

/// A string as it appears in JSON text: quoted and escaped.
pub open spec fn render_str(s: Seq<char>) -> Seq<char> {
    seq!['"'] + esc_str(s) + seq!['"']
}

/// Compact JSON text of a value: no spaces, entries and elements
/// joined by commas in their stored order.
pub open spec fn render_of(v: JsonV) -> Seq<char>
    decreases v,
{
    match v {
        JsonV::Null => "null"@,
        JsonV::Bool(b) => if b {
            "true"@
        } else {
            "false"@
        },
        JsonV::Num(n) => render_int(n),
        JsonV::Str(s) => render_str(s),
        JsonV::Arr(items) => seq!['['] + render_elems(items) + seq![']'],
        JsonV::Obj(entries) => seq!['{'] + render_entries(entries) + seq!['}'],
    }
}

/// Comma-joined text of array elements.
pub open spec fn render_elems(items: Seq<JsonV>) -> Seq<char>
    decreases items,
{
    if items.len() == 0 {
        Seq::empty()
    } else if items.len() == 1 {
        render_of(items[0])
    } else {
        render_elems(items.subrange(0, items.len() - 1)) + seq![','] + render_of(
            items[items.len() - 1],
        )
    }
}

/// Comma-joined text of object entries, each as `"key":value`.
pub open spec fn render_entries(entries: Seq<(Seq<char>, JsonV)>) -> Seq<char>
    decreases entries,
{
    if entries.len() == 0 {
        Seq::empty()
    } else if entries.len() == 1 {
        render_str(entries[0].0) + seq![':'] + render_of(entries[0].1)
    } else {
        render_entries(entries.subrange(0, entries.len() - 1)) + seq![','] + render_str(
            entries[entries.len() - 1].0,
        ) + seq![':'] + render_of(entries[entries.len() - 1].1)
    }
}

/// Appends the escaped body of `s` to `acc`.
fn push_escaped(acc: &mut String, s: &str)
    ensures
        final(acc)@ == old(acc)@ + esc_str(s@),
{
    let len: usize = s.unicode_len();
    let mut i: usize = 0;
    while i < len
        invariant
            len == s@.len(),
            i <= len,
            acc@ == old(acc)@ + esc_str(s@.subrange(0, i as int)),
        decreases len - i,
    {
        let c: char = s.get_char(i);
        if c == '"' {
            acc.append("\\\"");
        } else if c == '\\' {
            acc.append("\\\\");
        } else if c == '\n' {
            acc.append("\\n");
        } else if c == '\t' {
            acc.append("\\t");
        } else if c == '\r' {
            acc.append("\\r");
        } else if (c as u32) < 0x20 {
            let code: u32 = c as u32;
            acc.append("\\u00");
            acc.append(hex_str(code / 16));
            acc.append(hex_str(code % 16));
            proof {
                reveal_strlit("\\u00");
                assert("\\u00"@ =~= seq!['\\', 'u', '0', '0']);
            }
        } else {
            let piece: &str = s.substring_char(i, i + 1);
            proof {
                assert(piece@ =~= seq![c]);
            }
            acc.append(piece);
        }
        proof {
            reveal_strlit("\\\"");
            reveal_strlit("\\\\");
            reveal_strlit("\\n");
            reveal_strlit("\\t");
            reveal_strlit("\\r");
            assert(s@.subrange(0, i + 1).subrange(0, i as int) =~= s@.subrange(0, i as int));
            assert(s@.subrange(0, i + 1)[i as int] == c);
            assert(acc@ =~= old(acc)@ + esc_str(s@.subrange(0, i + 1)));
        }
        i = i + 1;
    }
    proof {
        assert(s@.subrange(0, len as int) =~= s@);
    }
}

/// Appends the decimal text of `n` to `acc`.
fn push_int(acc: &mut String, n: i64)
    ensures
        final(acc)@ == old(acc)@ + render_int(n as int),
{
    if n == 0 {
        acc.append("0");
        proof {
            reveal_strlit("0");
            assert("0"@ =~= seq!['0']);
        }
        return ;
    }
    if n < 0 {
        acc.append("-");
        proof {
            reveal_strlit("-");
            assert("-"@ =~= seq!['-']);
        }
    }
    let mut m: u64 = if n < 0 {
        (-(n as i128)) as u64
    } else {
        n as u64
    };
    let ghost m0: nat = m as nat;
    let mut tail: String = String::new();
    while m > 0
        invariant
            dec_digits(m0) =~= dec_digits(m as nat) + tail@,
        decreases m,
    {
        let d: u64 = m % 10;
        let ds: &str = if d == 0 {
            "0"
        } else if d == 1 {
            "1"
        } else if d == 2 {
            "2"
        } else if d == 3 {
            "3"
        } else if d == 4 {
            "4"
        } else if d == 5 {
            "5"
        } else if d == 6 {
            "6"
        } else if d == 7 {
            "7"
        } else if d == 8 {
            "8"
        } else {
            "9"
        };
        proof {
            reveal_strlit("0");
            reveal_strlit("1");
            reveal_strlit("2");
            reveal_strlit("3");
            reveal_strlit("4");
            reveal_strlit("5");
            reveal_strlit("6");
            reveal_strlit("7");
            reveal_strlit("8");
            reveal_strlit("9");
            assert(ds@ =~= seq![digit_char((m % 10) as nat)]);
        }
        let next: String = String::from_str(ds).concat(tail.as_str());
        tail = next;
        proof {
            assert(dec_digits(m as nat) == dec_digits((m as nat) / 10).push(
                digit_char((m as nat) % 10),
            ));
            assert((m / 10) as nat == (m as nat) / 10);
            assert((m % 10) as nat == (m as nat) % 10);
            assert(dec_digits(m0) =~= dec_digits((m / 10) as nat) + tail@);
        }
        m = m / 10;
    }
    acc.append(tail.as_str());
    proof {
        if n > 0 {
            assert(render_int(n as int) =~= dec_digits(m0));
        } else {
            assert(render_int(n as int) =~= seq!['-'] + dec_digits(m0));
            assert(acc@ =~= old(acc)@ + render_int(n as int));
        }
    }
}

impl Json {
    /// The compact JSON text of this value.
    pub fn to_text(&self) -> (r: String)
        ensures
            r@ == render_of(self@),
    {
        let mut acc: String = String::new();
        self.push_text(&mut acc);
        acc
    }

    /// Appends the compact JSON text of this value to `acc`.
    fn push_text(&self, acc: &mut String)
        ensures
            final(acc)@ == old(acc)@ + render_of(self@),
        decreases *self,
    {
        match self {
            Json::Null => {
                acc.append("null");
            },
            Json::Bool(b) => {
                if *b {
                    acc.append("true");
                } else {
                    acc.append("false");
                }
            },
            Json::Num(n) => {
                push_int(acc, *n);
            },
            Json::Str(s) => {
                acc.append("\"");
                push_escaped(acc, s.as_str());
                acc.append("\"");
                proof {
                    reveal_strlit("\"");
                    assert("\""@ =~= seq!['"']);
                    assert(acc@ =~= old(acc)@ + render_str(s@));
                }
            },
            Json::Arr(items) => {
                proof {
                    lemma_views_of(items@);
                }
                acc.append("[");
                proof {
                    reveal_strlit("[");
                    assert("["@ =~= seq!['[']);
                    assert(views_of(items@).subrange(0, 0) =~= Seq::<JsonV>::empty());
                    assert(acc@ =~= old(acc)@ + seq!['['] + render_elems(
                        views_of(items@).subrange(0, 0),
                    ));
                }
                let mut i: usize = 0;
                while i < items.len()
                    invariant
                        i <= items.len(),
                        views_of(items@).len() == items@.len(),
                        forall|k: int| 0 <= k < items@.len() ==> views_of(items@)[k] == items@[k]@,
                        acc@ == old(acc)@ + seq!['['] + render_elems(
                            views_of(items@).subrange(0, i as int),
                        ),
                        decreases_to!(*self => *items),
                    decreases items.len() - i,
                {
                    proof {
                        assert(decreases_to!(*items => items@));
                        assert(decreases_to!(items@ => items@[i as int]));
                    }
                    if i > 0 {
                        acc.append(",");
                        proof {
                            reveal_strlit(",");
                            assert(","@ =~= seq![',']);
                        }
                    }
                    items[i].push_text(acc);
                    proof {
                        let vs = views_of(items@);
                        assert(vs.subrange(0, i + 1).subrange(0, i as int) =~= vs.subrange(
                            0,
                            i as int,
                        ));
                        assert(vs.subrange(0, i + 1)[i as int] == vs[i as int]);
                        assert(acc@ =~= old(acc)@ + seq!['['] + render_elems(
                            vs.subrange(0, i + 1),
                        ));
                    }
                    i = i + 1;
                }
                acc.append("]");
                proof {
                    reveal_strlit("[");
                    reveal_strlit("]");
                    assert("["@ =~= seq!['[']);
                    assert("]"@ =~= seq![']']);
                    assert(views_of(items@).subrange(0, items@.len() as int) =~= views_of(items@));
                    assert(acc@ =~= old(acc)@ + render_of(self@));
                }
            },
            Json::Obj(entries) => {
                proof {
                    lemma_views_of_entries(entries@);
                }
                acc.append("{");
                proof {
                    reveal_strlit("{");
                    assert("{"@ =~= seq!['{']);
                    assert(views_of_entries(entries@).subrange(0, 0) =~= Seq::<
                        (Seq<char>, JsonV),
                    >::empty());
                    assert(acc@ =~= old(acc)@ + seq!['{'] + render_entries(
                        views_of_entries(entries@).subrange(0, 0),
                    ));
                }
                let mut i: usize = 0;
                while i < entries.len()
                    invariant
                        i <= entries.len(),
                        views_of_entries(entries@).len() == entries@.len(),
                        forall|k: int|
                            0 <= k < entries@.len() ==> views_of_entries(entries@)[k] == (
                            entries@[k].0@,
                            entries@[k].1@,
                            ),
                        acc@ == old(acc)@ + seq!['{'] + render_entries(
                            views_of_entries(entries@).subrange(0, i as int),
                        ),
                        decreases_to!(*self => *entries),
                    decreases entries.len() - i,
                {
                    proof {
                        assert(decreases_to!(*entries => entries@));
                        assert(decreases_to!(entries@ => entries@[i as int]));
                        assert(decreases_to!(entries@[i as int] => entries@[i as int].1));
                    }
                    if i > 0 {
                        acc.append(",");
                        proof {
                            reveal_strlit(",");
                            assert(","@ =~= seq![',']);
                        }
                    }
                    let entry = &entries[i];
                    acc.append("\"");
                    push_escaped(acc, entry.0.as_str());
                    acc.append("\":");
                    entry.1.push_text(acc);
                    proof {
                        reveal_strlit("\"");
                        reveal_strlit("\":");
                        assert("\""@ =~= seq!['"']);
                        assert("\":"@ =~= seq!['"', ':']);
                        let es = views_of_entries(entries@);
                        assert(es.subrange(0, i + 1).subrange(0, i as int) =~= es.subrange(
                            0,
                            i as int,
                        ));
                        assert(es.subrange(0, i + 1)[i as int] == es[i as int]);
                        assert(acc@ =~= old(acc)@ + seq!['{'] + render_entries(
                            es.subrange(0, i + 1),
                        ));
                    }
                    i = i + 1;
                }
                acc.append("}");
                proof {
                    reveal_strlit("{");
                    reveal_strlit("}");
                    assert("{"@ =~= seq!['{']);
                    assert("}"@ =~= seq!['}']);
                    assert(views_of_entries(entries@).subrange(0, entries@.len() as int)
                        =~= views_of_entries(entries@));
                    assert(acc@ =~= old(acc)@ + render_of(self@));
                }
            },
        }
    }
}

} // verus!
