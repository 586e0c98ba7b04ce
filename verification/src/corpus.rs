//! Tokens of the form `surface:hidden`, and the keys made of them.

use crate::errors::CorpusFormatError;
use crate::text::{joined, push_char, push_text, same_text, split, split_on, to_chars, views};
use vstd::prelude::*;

verus! {

/// The token that stands before the first token of every line.
pub const START_TOKEN: &'static str = "<<START>>";

/// The start token as a sequence of characters.
pub open spec fn start_key() -> Seq<char> {
    START_TOKEN@
}

/// Surface form and hidden label of a token: the texts before and after its
/// first `:`, the second one ending at the next `:`. The start token is its
/// own surface form and label. A token without `:` has neither.
pub open spec fn token_parts(token: Seq<char>) -> Option<(Seq<char>, Seq<char>)> {
    if token == start_key() {
        Some((start_key(), start_key()))
    } else {
        let parts = split_on(token, ':');
        if parts.len() >= 2 {
            Some((parts[0], parts[1]))
        } else {
            None
        }
    }
}

/// Whether every token has a surface form and a label.
pub open spec fn well_formed(tokens: Seq<Seq<char>>) -> bool {
    forall|i: int| 0 <= i < tokens.len() ==> token_parts(#[trigger] tokens[i]) is Some
}

/// The surface forms of the tokens.
pub open spec fn surfaces(tokens: Seq<Seq<char>>) -> Seq<Seq<char>> {
    Seq::new(tokens.len(), |i: int| token_parts(tokens[i]).unwrap().0)
}

/// The hidden labels of the tokens.
pub open spec fn labels(tokens: Seq<Seq<char>>) -> Seq<Seq<char>> {
    Seq::new(tokens.len(), |i: int| token_parts(tokens[i]).unwrap().1)
}

/// The texts of a list of string slices.
pub open spec fn slices(v: Seq<&str>) -> Seq<Seq<char>> {
    Seq::new(v.len(), |i: int| v[i]@)
}

/// Splits a token into its surface form and its hidden label.
pub fn split_token(token: &str) -> (r: Result<(String, String), CorpusFormatError>)
    ensures
        match token_parts(token@) {
            Some(parts) => r matches Ok(pair) && pair.0@ == parts.0 && pair.1@ == parts.1,
            None => r is Err,
        },
{
    if same_text(token, START_TOKEN) {
        return Ok((START_TOKEN.to_owned(), START_TOKEN.to_owned()));
    }
    let chars = to_chars(token);
    let parts = split(&chars, ':');
    proof {
        assert(views(parts@).len() == parts.len());
    }
    if parts.len() >= 2 {
        proof {
            assert(views(parts@)[0] == parts[0]@);
            assert(views(parts@)[1] == parts[1]@);
        }
        Ok((parts[0].clone(), parts[1].clone()))
    } else {
        Err(CorpusFormatError::MissingSeparator)
    }
}

/// The texts `parts[from..to]` one after another, a space between each two.
pub fn join_with_spaces(parts: &Vec<String>, from: usize, to: usize) -> (r: String)
    requires
        from <= to <= parts.len(),
    ensures
        r@ == joined(views(parts@).subrange(from as int, to as int), ' '),
{
    let ghost texts = views(parts@).subrange(from as int, to as int);
    let mut r = String::new();
    let mut k: usize = from;
    while k < to
        invariant
            from <= k <= to <= parts.len(),
            texts == views(parts@).subrange(from as int, to as int),
            r@ == joined(texts.take(k - from), ' '),
        decreases to - k,
    {
        let ghost before = r@;
        if k > from {
            push_char(&mut r, ' ');
        }
        push_text(&mut r, parts[k].as_str());
        proof {
            let next = texts.take(k - from + 1);
            assert(next.drop_last() == texts.take(k - from));
            assert(next.last() == parts[k as int]@);
            if k == from {
                assert(before + parts[k as int]@ == parts[k as int]@);
            }
        }
        k += 1;
    }
    proof {
        assert(texts.take(k - from) == texts);
    }
    r
}

/// Owned copies of string slices.
pub fn to_owned_all(tokens: &Vec<&str>) -> (r: Vec<String>)
    ensures
        views(r@) == slices(tokens@),
{
    let mut r: Vec<String> = Vec::new();
    let mut k: usize = 0;
    while k < tokens.len()
        invariant
            k <= tokens.len(),
            r.len() == k,
            forall|j: int| 0 <= j < k ==> (#[trigger] r[j])@ == tokens[j]@,
        decreases tokens.len() - k,
    {
        r.push(tokens[k].to_owned());
        k += 1;
    }
    assert(views(r@) =~= slices(tokens@));
    r
}

/// Surface forms and hidden labels of the first `n` tokens.
pub fn split_tokens(tokens: &Vec<String>, n: usize) -> (r: Result<
    (Vec<String>, Vec<String>),
    CorpusFormatError,
>)
    requires
        n <= tokens.len(),
    ensures
        well_formed(views(tokens@).take(n as int)) <==> r is Ok,
        r matches Ok(pair) ==> views(pair.0@) == surfaces(views(tokens@).take(n as int)) && views(
            pair.1@,
        ) == labels(views(tokens@).take(n as int)),
{
    let ghost texts = views(tokens@).take(n as int);
    let mut observed: Vec<String> = Vec::new();
    let mut hidden: Vec<String> = Vec::new();
    let mut k: usize = 0;
    while k < n
        invariant
            k <= n <= tokens.len(),
            texts == views(tokens@).take(n as int),
            observed.len() == k,
            hidden.len() == k,
            forall|j: int| 0 <= j < k ==> token_parts(#[trigger] texts[j]) is Some,
            forall|j: int|
                0 <= j < k ==> (#[trigger] observed[j])@ == token_parts(texts[j]).unwrap().0,
            forall|j: int| 0 <= j < k ==> (#[trigger] hidden[j])@ == token_parts(texts[j]).unwrap().1,
        decreases n - k,
    {
        assert(texts[k as int] == tokens[k as int]@);
        match split_token(tokens[k].as_str()) {
            Ok(pair) => {
                observed.push(pair.0);
                hidden.push(pair.1);
            },
            Err(e) => {
                return Err(e);
            },
        }
        k += 1;
    }
    proof {
        assert(views(observed@) =~= surfaces(texts));
        assert(views(hidden@) =~= labels(texts));
    }
    Ok((observed, hidden))
}

} // verus!
