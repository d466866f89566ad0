//! Client identities: 128-bit identifiers handled in their canonical
//! hyphenated hexadecimal text form (8-4-4-4-12 digits, 36 characters).
//! A parsed identity is kept normalized to lowercase, so that equality of
//! the stored text coincides with equality of the 128-bit value.

use vstd::prelude::*;

verus! {

pub open spec fn is_hex_digit(c: char) -> bool {
    (48 <= c as int && c as int <= 57) || (97 <= c as int && c as int <= 102) || (65 <= c as int
        && c as int <= 70)
}

/// The positions of the four hyphens in the canonical 36-character form.
pub open spec fn is_hyphen_pos(i: int) -> bool {
    i == 8 || i == 13 || i == 18 || i == 23
}

/// Whether `s` is a canonical hyphenated identity text: 36 characters,
/// hyphens exactly at positions 8, 13, 18 and 23, hex digits elsewhere.
pub open spec fn is_canonical_id(s: Seq<char>) -> bool {
    s.len() == 36 && forall|i: int|
        0 <= i < 36 ==> ((is_hyphen_pos(i) && #[trigger] s[i] == '-') || (!is_hyphen_pos(i)
            && is_hex_digit(s[i])))
}

/// Maps an uppercase hex digit to its lowercase form; other characters are
/// left alone.
pub open spec fn lower_hex(c: char) -> char {
    if c == 'A' {
        'a'
    } else if c == 'B' {
        'b'
    } else if c == 'C' {
        'c'
    } else if c == 'D' {
        'd'
    } else if c == 'E' {
        'e'
    } else if c == 'F' {
        'f'
    } else {
        c
    }
}

/// The lowercase normal form of an identity text.
pub open spec fn norm_id(s: Seq<char>) -> Seq<char> {
    s.map_values(|c: char| lower_hex(c))
}

/// A canonical identity text that is already in its lowercase normal form.
pub open spec fn is_lower_id(s: Seq<char>) -> bool {
    is_canonical_id(s) && norm_id(s) == s
}

/// Normalizing a canonical identity text yields a canonical text that is its
/// own normal form.
pub proof fn lemma_norm_id(s: Seq<char>)
    requires
        is_canonical_id(s),
    ensures
        is_lower_id(norm_id(s)),
{
    let t = norm_id(s);
    assert forall|i: int| 0 <= i < 36 implies ((is_hyphen_pos(i) && #[trigger] t[i] == '-') || (
    !is_hyphen_pos(i) && is_hex_digit(t[i]))) by {
        assert(t[i] == lower_hex(s[i]));
    }
    assert(norm_id(t) =~= t) by {
        assert forall|i: int| 0 <= i < 36 implies #[trigger] norm_id(t)[i] == t[i] by {
            assert(t[i] == lower_hex(s[i]));
        }
    }
}

/// A client identity, held as its canonical lowercase text. The text encodes
/// the identifier's 128 bits as 32 hex digits, so equality of the stored
/// text is exact value equality of identifiers.
#[derive(Debug)]
pub struct ClientId {
    text: String,
}

impl View for ClientId {
    type V = Seq<char>;

    closed spec fn view(&self) -> Seq<char> {
        self.text@
    }
}

impl Clone for ClientId {
    fn clone(&self) -> (r: Self)
        ensures
            r == *self,
    {
        proof {
            use_type_invariant(self);
        }
        ClientId { text: self.text.clone() }
    }
}

impl PartialEq for ClientId {
    fn eq(&self, other: &ClientId) -> (r: bool) {
        self.text == other.text
    }
}

impl vstd::std_specs::cmp::PartialEqSpecImpl for ClientId {
    open spec fn obeys_eq_spec() -> bool {
        true
    }

    open spec fn eq_spec(&self, other: &ClientId) -> bool {
        self@ == other@
    }
}

impl Eq for ClientId {}

fn lower_hex_str(c: char) -> (r: Option<&'static str>)
    ensures
        r is Some <==> is_hex_digit(c),
        r matches Some(t) ==> t@ == seq![lower_hex(c)],
{
    proof {
        reveal_strlit("0");
        reveal_strlit("1");
        reveal_strlit("2");
        reveal_strlit("3");
        reveal_strlit("4");
        reveal_strlit("5");
        reveal_strlit("6");
        reveal_strlit("7");
        reveal_strlit("8");
        reveal_strlit("9");
        reveal_strlit("a");
        reveal_strlit("b");
        reveal_strlit("c");
        reveal_strlit("d");
        reveal_strlit("e");
        reveal_strlit("f");
    }
    let r = match c {
        '0' => Some("0"),
        '1' => Some("1"),
        '2' => Some("2"),
        '3' => Some("3"),
        '4' => Some("4"),
        '5' => Some("5"),
        '6' => Some("6"),
        '7' => Some("7"),
        '8' => Some("8"),
        '9' => Some("9"),
        'a' | 'A' => Some("a"),
        'b' | 'B' => Some("b"),
        'c' | 'C' => Some("c"),
        'd' | 'D' => Some("d"),
        'e' | 'E' => Some("e"),
        'f' | 'F' => Some("f"),
        _ => None,
    };
    proof {
        if is_hex_digit(c) {
            assert(r matches Some(t) ==> t@ =~= seq![lower_hex(c)]);
        }
    }
    r
}

impl ClientId {
    /// Every identity value is canonical lowercase text; established at
    /// parse time and preserved by every operation.
    #[verifier::type_invariant]
    pub open spec fn wf(self) -> bool {
        is_lower_id(self@)
    }

    /// Parses the canonical 36-character hyphenated form, and nothing else.
    /// The identity is normalized to lowercase, so two spellings of the same
    /// 128-bit value parse to equal identities.
    pub fn parse_str(s: &str) -> (r: Option<ClientId>)
        ensures
            r is Some <==> is_canonical_id(s@),
            r matches Some(id) ==> id@ == norm_id(s@) && id.wf(),
    {
        let n = s.unicode_len();
        if n != 36 {
            return None;
        }
        let mut out = String::new();
        let mut i: usize = 0;
        while i < 36
            invariant
                0 <= i <= 36,
                s@.len() == 36,
                out@ =~= norm_id(s@).subrange(0, i as int),
                forall|j: int|
                    0 <= j < i ==> ((is_hyphen_pos(j) && #[trigger] s@[j] == '-') || (
                    !is_hyphen_pos(j) && is_hex_digit(s@[j]))),
            decreases 36 - i,
        {
            let c = s.get_char(i);
            if i == 8 || i == 13 || i == 18 || i == 23 {
                if c != '-' {
                    proof {
                        assert(!is_canonical_id(s@));
                    }
                    return None;
                }
                proof {
                    reveal_strlit("-");
                }
                out.append("-");
                proof {
                    assert(lower_hex(c) == '-');
                }
            } else {
                match lower_hex_str(c) {
                    Some(t) => {
                        out.append(t);
                    },
                    None => {
                        proof {
                            assert(!is_canonical_id(s@));
                        }
                        return None;
                    },
                }
            }
            i = i + 1;
            proof {
                assert(norm_id(s@)[i - 1] == lower_hex(s@[i - 1]));
                assert(out@ =~= norm_id(s@).subrange(0, i as int));
            }
        }
        proof {
            assert(is_canonical_id(s@));
            assert(out@ =~= norm_id(s@));
            lemma_norm_id(s@);
        }
        Some(ClientId { text: out })
    }

    /// The canonical lowercase text of the identity.
    pub fn to_text(&self) -> (r: String)
        ensures
            r@ == self@,
    {
        self.text.clone()
    }

    /// The canonical text, borrowed.
    pub fn as_str(&self) -> (r: &str)
        ensures
            r@ == self@,
    {
        self.text.as_str()
    }
}

} // verus!
