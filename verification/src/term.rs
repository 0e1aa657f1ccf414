//! RDF terms as the dictionary stores them.  A term is held as plain text
//! (IRI text, blank-node label, or lexical form with language tag or
//! datatype IRI); `term_string` renders it in the dictionary's string form
//! and `auto_term` parses that form back.

use vstd::prelude::*;

use crate::DictError;

verus! {

/// A term of the dictionary.
#[derive(Debug, Clone)]
pub enum HdtTerm {
    /// An IRI, as its text.
    Iri(String),
    /// A blank node, as its label (without the `_:` prefix).
    BlankNode(String),
    /// A literal with a language tag: lexical form, then the tag.
    LiteralLanguage(String, String),
    /// A typed literal: lexical form, then the datatype IRI.
    LiteralDatatype(String, String),
}

/// The mathematical shape of a term: each text as its character sequence.
pub ghost enum SpecTerm {
    Iri(Seq<char>),
    BlankNode(Seq<char>),
    LiteralLanguage(Seq<char>, Seq<char>),
    LiteralDatatype(Seq<char>, Seq<char>),
}

impl View for HdtTerm {
    type V = SpecTerm;

    open spec fn view(&self) -> SpecTerm {
        match self {
            HdtTerm::Iri(i) => SpecTerm::Iri(i@),
            HdtTerm::BlankNode(b) => SpecTerm::BlankNode(b@),
            HdtTerm::LiteralLanguage(l, tag) => SpecTerm::LiteralLanguage(l@, tag@),
            HdtTerm::LiteralDatatype(l, dt) => SpecTerm::LiteralDatatype(l@, dt@),
        }
    }
}

/// The datatype IRI that plain literals carry implicitly.
pub open spec fn xsd_string_iri() -> Seq<char> {
    "http://www.w3.org/2001/XMLSchema#string"@
}

/// The dictionary's string form of a term: blank nodes carry a `_:` prefix,
/// literals their quotes, tag or datatype; a plain `xsd:string` literal is
/// just the quoted lexical form.
pub open spec fn spec_term_string(t: SpecTerm) -> Seq<char> {
    match t {
        SpecTerm::Iri(i) => i,
        SpecTerm::BlankNode(b) => "_:"@ + b,
        SpecTerm::LiteralLanguage(l, tag) => seq!['"'] + l + seq!['"', '@'] + tag,
        SpecTerm::LiteralDatatype(l, dt) => if dt == xsd_string_iri() {
            seq!['"'] + l + seq!['"']
        } else {
            seq!['"'] + l + "\"^^<"@ + dt + seq!['>']
        },
    }
}

/// Index of the first `@` in `s` (-1 where none occurs).
pub open spec fn first_at(s: Seq<char>) -> int
    decreases s.len(),
{
    if s.len() == 0 {
        -1
    } else if s[0] == '@' {
        0
    } else if first_at(s.drop_first()) == -1 {
        -1
    } else {
        1 + first_at(s.drop_first())
    }
}

proof fn lemma_first_at_is(s: Seq<char>, idx: int)
    requires
        0 <= idx < s.len(),
        s[idx] == '@',
        forall|m: int| 0 <= m < idx ==> s[m] != '@',
    ensures
        first_at(s) == idx,
    decreases idx,
{
    if idx > 0 {
        assert forall|m: int| 0 <= m < idx - 1 implies s.drop_first()[m] != '@' by {
            assert(s[m + 1] != '@');
        }
        lemma_first_at_is(s.drop_first(), idx - 1);
    }
}

proof fn lemma_first_at_none(s: Seq<char>)
    requires
        forall|m: int| 0 <= m < s.len() ==> s[m] != '@',
    ensures
        first_at(s) == -1,
    decreases s.len(),
{
    if s.len() > 0 {
        assert forall|m: int| 0 <= m < s.len() - 1 implies s.drop_first()[m] != '@' by {
            assert(s[m + 1] != '@');
        }
        lemma_first_at_none(s.drop_first());
    }
}

/// Relies on `String::push`: it appends the character.
#[verifier::external_body]
pub(crate) fn push_char(s: &mut String, c: char)
    ensures
        final(s)@ == old(s)@.push(c),
{
    s.push(c);
}

/// Renders `t` in the dictionary's string form.
pub fn term_string(t: &HdtTerm) -> (r: String)
    ensures
        r@ == spec_term_string(t@),
{
    match t {
        HdtTerm::Iri(i) => i.clone(),
        HdtTerm::BlankNode(b) => {
            let mut r = "_:".to_owned();
            r.append(b.as_str());
            r
        },
        HdtTerm::LiteralLanguage(l, tag) => {
            let mut r = String::new();
            push_char(&mut r, '"');
            r.append(l.as_str());
            push_char(&mut r, '"');
            push_char(&mut r, '@');
            r.append(tag.as_str());
            proof {
                assert(r@ =~= seq!['"'] + l@ + seq!['"', '@'] + tag@);
            }
            r
        },
        HdtTerm::LiteralDatatype(l, dt) => {
            let xsd: String = "http://www.w3.org/2001/XMLSchema#string".to_owned();
            if *dt == xsd {
                let mut r = String::new();
                push_char(&mut r, '"');
                r.append(l.as_str());
                push_char(&mut r, '"');
                proof {
                    assert(r@ =~= seq!['"'] + l@ + seq!['"']);
                }
                r
            } else {
                let mut r = String::new();
                push_char(&mut r, '"');
                r.append(l.as_str());
                r.append("\"^^<");
                r.append(dt.as_str());
                push_char(&mut r, '>');
                proof {
                    assert(r@ =~= seq!['"'] + l@ + "\"^^<"@ + dt@ + seq!['>']);
                }
                r
            }
        },
    }
}

/// The term a dictionary string denotes, by its leading character: `"` a
/// literal, `_` a blank node, anything else an IRI.  Inside a literal, the
/// last quote closes the lexical form; an `@` after it introduces a language
/// tag, a `^^<...>` a datatype.  Strings no term can have produced are
/// rejected (among them a lone quote, a blank node shorter than its `_:`
/// prefix, and datatype text not of the form `^^<...>`).
pub open spec fn spec_auto_term(s: Seq<char>) -> Result<SpecTerm, DictError> {
    if s.len() == 0 {
        Err(DictError::InvalidEncoding)
    } else if s[0] == '"' {
        let l = crate::dict_sect_pfc::last_quote(s);
        if l == 0 {
            Err(DictError::InvalidEncoding)
        } else {
            let lex = s.subrange(1, l);
            let rest = s.subrange(l + 1, s.len() as int);
            if rest.len() == 0 {
                Ok(SpecTerm::LiteralDatatype(lex, xsd_string_iri()))
            } else if first_at(rest) >= 0 {
                Ok(SpecTerm::LiteralLanguage(lex, rest.subrange(first_at(rest) + 1, rest.len() as int)))
            } else if rest.len() >= 4 && rest[0] == '^' && rest[1] == '^' {
                Ok(SpecTerm::LiteralDatatype(lex, rest.subrange(3, rest.len() - 1)))
            } else {
                Err(DictError::InvalidEncoding)
            }
        }
    } else if s[0] == '_' {
        if s.len() >= 2 {
            Ok(SpecTerm::BlankNode(s.subrange(2, s.len() as int)))
        } else {
            Err(DictError::InvalidEncoding)
        }
    } else {
        Ok(SpecTerm::Iri(s))
    }
}

/// Parses the dictionary's string form of a term.
pub fn auto_term(s: &str) -> (r: Result<HdtTerm, DictError>)
    ensures
        match r {
            Ok(t) => (spec_auto_term(s@) matches Ok(st) && t@ == st),
            Err(e) => (spec_auto_term(s@) matches Err(e2) && e == e2),
        },
{
    let ghost sv = s@;
    let n = s.unicode_len();
    if n == 0 {
        return Err(DictError::InvalidEncoding);
    }
    let c0 = s.get_char(0);
    if c0 == '"' {
        let mut lq: usize = 0;
        let mut i: usize = 0;
        while i < n
            invariant
                0 <= i <= n,
                n == sv.len(),
                s@ == sv,
                sv[0] == '"',
                i >= 1 ==> (lq < i && lq == crate::dict_sect_pfc::last_quote(sv.take(i as int))),
            decreases n - i,
        {
            let c = s.get_char(i);
            proof {
                assert(sv.take(i + 1).drop_last() =~= sv.take(i as int));
                assert(sv.take(i + 1).last() == sv[i as int]);
            }
            if c == '"' {
                lq = i;
            }
            i = i + 1;
        }
        proof {
            assert(sv.take(n as int) =~= sv);
        }
        if lq == 0 {
            return Err(DictError::InvalidEncoding);
        }
        let lex = s.substring_char(1, lq).to_owned();
        let ghost rest = sv.subrange(lq + 1, n as int);
        if lq + 1 == n {
            proof {
                assert(rest =~= Seq::<char>::empty());
            }
            return Ok(
                HdtTerm::LiteralDatatype(
                    lex,
                    "http://www.w3.org/2001/XMLSchema#string".to_owned(),
                ),
            );
        }
        let mut j = lq + 1;
        while j < n
            invariant
                lq + 1 <= j <= n,
                1 <= lq < n,
                n == sv.len(),
                s@ == sv,
                sv[0] == '"',
                lq == crate::dict_sect_pfc::last_quote(sv),
                lex@ == sv.subrange(1, lq as int),
                rest == sv.subrange(lq + 1, n as int),
                forall|m: int| lq + 1 <= m < j ==> sv[m] != '@',
            decreases n - j,
        {
            if s.get_char(j) == '@' {
                proof {
                    assert forall|m: int| 0 <= m < j - lq - 1 implies rest[m] != '@' by {
                        assert(sv[lq + 1 + m] != '@');
                    }
                    lemma_first_at_is(rest, j - lq - 1);
                }
                let tag = s.substring_char(j + 1, n).to_owned();
                proof {
                    assert(rest.subrange(first_at(rest) + 1, rest.len() as int) =~= sv.subrange(
                        j + 1,
                        n as int,
                    ));
                }
                return Ok(HdtTerm::LiteralLanguage(lex, tag));
            }
            j = j + 1;
        }
        proof {
            assert forall|m: int| 0 <= m < rest.len() implies rest[m] != '@' by {
                assert(sv[lq + 1 + m] != '@');
            }
            lemma_first_at_none(rest);
        }
        if n - (lq + 1) >= 4 {
            let c1 = s.get_char(lq + 1);
            let c2 = s.get_char(lq + 2);
            if c1 == '^' && c2 == '^' {
                let dt = s.substring_char(lq + 4, n - 1).to_owned();
                proof {
                    assert(rest.subrange(3, rest.len() - 1) =~= sv.subrange(
                        lq + 4,
                        n - 1,
                    ));
                }
                return Ok(HdtTerm::LiteralDatatype(lex, dt));
            }
        }
        Err(DictError::InvalidEncoding)
    } else if c0 == '_' {
        if n >= 2 {
            Ok(HdtTerm::BlankNode(s.substring_char(2, n).to_owned()))
        } else {
            Err(DictError::InvalidEncoding)
        }
    } else {
        Ok(HdtTerm::Iri(s.to_owned()))
    }
}

} // verus!
