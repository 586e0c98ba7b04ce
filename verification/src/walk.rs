//! The mathematics of walking through a model: sampling a sequence from
//! given draws, and the probability of a given sequence.

use crate::corpus::{start_key, token_parts};
use crate::errors::LookupError;
use crate::model::{index_of, DistModel};
use crate::sampling::{picked_key, unit};
use crate::text::{joined, words_of};
use vstd::prelude::*;

verus! {

/// How far a sampled sequence has come.
pub struct Walk {
    /// The hidden context that was reached.
    pub current: Seq<char>,
    /// The text written so far.
    pub text: Seq<char>,
    /// The tokens written so far, each as surface form and hidden label.
    pub tokens: Seq<(Seq<char>, Seq<char>)>,
    /// Whether the walk has met a context without transitions.
    pub stopped: bool,
}

/// The walk before the first position.
pub open spec fn start_walk(current: Seq<char>) -> Walk {
    Walk { current, text: Seq::empty(), tokens: Seq::empty(), stopped: false }
}

/// The text of a token.
pub open spec fn token_text(surface: Seq<char>, hidden: Seq<char>) -> Seq<char> {
    surface.push(':') + hidden
}

/// One position of a walk through the positional model. The hidden label is
/// drawn from the row of the current context; a context without a row stops
/// the walk. The surface form is drawn from the row of the new label, and
/// the token written, followed by a space unless the position is the last;
/// a label without such a row writes nothing.
pub open spec fn positional_step(
    w: Walk,
    hidden: DistModel,
    observed: DistModel,
    x: u64,
    y: u64,
    last: bool,
) -> Walk {
    if w.stopped {
        w
    } else {
        match index_of(hidden, w.current) {
            None => Walk { stopped: true, ..w },
            Some(j) => {
                let label = picked_key(hidden[j].1, unit(x));
                match index_of(observed, label) {
                    None => Walk { current: label, ..w },
                    Some(e) => {
                        let surface = picked_key(observed[e].1, unit(y));
                        let written = w.text + token_text(surface, label);
                        Walk {
                            current: label,
                            text: if last {
                                written
                            } else {
                                written.push(' ')
                            },
                            tokens: w.tokens.push((surface, label)),
                            stopped: false,
                        }
                    },
                }
            },
        }
    }
}

/// The walk through the first `n` positions of the positional model, with
/// the draws `xs` for the hidden labels and `ys` for the surface forms.
pub open spec fn positional_walk(
    h: Seq<DistModel>,
    o: Seq<DistModel>,
    xs: Seq<u64>,
    ys: Seq<u64>,
    n: nat,
) -> Walk
    decreases n,
{
    if n == 0 {
        start_walk(start_key())
    } else {
        positional_step(
            positional_walk(h, o, xs, ys, (n - 1) as nat),
            h[n - 1],
            o[n - 1],
            xs[n - 1],
            ys[n - 1],
            n == h.len(),
        )
    }
}

/// A walk that has stopped stays as it is.
pub proof fn lemma_positional_walk_stopped(
    h: Seq<DistModel>,
    o: Seq<DistModel>,
    xs: Seq<u64>,
    ys: Seq<u64>,
    n: nat,
    m: nat,
)
    requires
        n <= m,
        positional_walk(h, o, xs, ys, n).stopped,
    ensures
        positional_walk(h, o, xs, ys, m) == positional_walk(h, o, xs, ys, n),
    decreases m - n,
{
    if n < m {
        lemma_positional_walk_stopped(h, o, xs, ys, n, (m - 1) as nat);
    }
}

/// The first `n` pairs of a surface word and a label word, each written as a
/// token with a space behind it.
pub open spec fn pairs_text(surfaces: Seq<Seq<char>>, labels: Seq<Seq<char>>, n: nat) -> Seq<char>
    decreases n,
{
    if n == 0 {
        Seq::empty()
    } else {
        pairs_text(surfaces, labels, (n - 1) as nat) + token_text(surfaces[n - 1], labels[n - 1]).push(
            ' ',
        )
    }
}

/// The smaller of two lengths.
pub open spec fn shorter(a: nat, b: nat) -> nat {
    if a <= b {
        a
    } else {
        b
    }
}

/// One step of a walk through the base model. The hidden context and the
/// surface forms are drawn as in the positional model. The words of both are
/// written in pairs, each with a space behind it; then the last character of
/// the text is taken away, and a space put behind unless the step is the
/// last one.
pub open spec fn base_step(
    w: Walk,
    hidden: DistModel,
    observed: DistModel,
    x: u64,
    y: u64,
    last: bool,
) -> Walk {
    if w.stopped {
        w
    } else {
        match index_of(hidden, w.current) {
            None => Walk { stopped: true, ..w },
            Some(j) => {
                let label = picked_key(hidden[j].1, unit(x));
                match index_of(observed, label) {
                    None => Walk { current: label, ..w },
                    Some(e) => {
                        let surface = picked_key(observed[e].1, unit(y));
                        let a = words_of(surface);
                        let b = words_of(label);
                        let written = w.text + pairs_text(a, b, shorter(a.len(), b.len()));
                        let cut = if written.len() > 0 {
                            written.drop_last()
                        } else {
                            written
                        };
                        Walk {
                            current: label,
                            text: if last {
                                cut
                            } else {
                                cut.push(' ')
                            },
                            tokens: w.tokens,
                            stopped: false,
                        }
                    },
                }
            },
        }
    }
}

/// The number of steps of a walk through a base model of the given order
/// that is to give `length` tokens.
pub open spec fn steps_for(length: int, order: int) -> nat {
    if length <= 0 || order <= 0 {
        0
    } else {
        (length / order) as nat
    }
}

/// The walk through the first `n` steps of the base model.
pub open spec fn base_walk(
    hidden: DistModel,
    observed: DistModel,
    order: nat,
    length: int,
    xs: Seq<u64>,
    ys: Seq<u64>,
    n: nat,
) -> Walk
    decreases n,
{
    if n == 0 {
        start_walk(joined(Seq::new(order, |k: int| start_key()), ' '))
    } else {
        base_step(
            base_walk(hidden, observed, order, length, xs, ys, (n - 1) as nat),
            hidden,
            observed,
            xs[n - 1],
            ys[n - 1],
            n == length,
        )
    }
}

/// A walk that has stopped stays as it is.
pub proof fn lemma_base_walk_stopped(
    hidden: DistModel,
    observed: DistModel,
    order: nat,
    length: int,
    xs: Seq<u64>,
    ys: Seq<u64>,
    n: nat,
    m: nat,
)
    requires
        n <= m,
        base_walk(hidden, observed, order, length, xs, ys, n).stopped,
    ensures
        base_walk(hidden, observed, order, length, xs, ys, m) == base_walk(
            hidden,
            observed,
            order,
            length,
            xs,
            ys,
            n,
        ),
    decreases m - n,
{
    if n < m {
        lemma_base_walk_stopped(hidden, observed, order, length, xs, ys, n, (m - 1) as nat);
    }
}

/// The weight of `target` in the row of `context`, or what is missing.
pub open spec fn find_weight(d: DistModel, context: Seq<char>, target: Seq<char>) -> Result<
    real,
    LookupError,
> {
    match index_of(d, context) {
        None => Err(LookupError::UnknownContext),
        Some(i) => match index_of(d[i].1, target) {
            None => Err(LookupError::UnknownTarget),
            Some(k) => Ok(d[i].1[k].1),
        },
    }
}

/// How far the probability of a sequence has been computed.
pub struct Path {
    /// The hidden label of the last token.
    pub current: Seq<char>,
    /// The product of the probabilities so far.
    pub product: real,
}

/// The path after one more token: the product times the probability of the
/// transition to the token's label and that of its surface form at the
/// label.
pub open spec fn path_step(p: Path, hidden: DistModel, observed: DistModel, token: Seq<char>) -> Result<
    Path,
    LookupError,
> {
    match token_parts(token) {
        None => Err(LookupError::MalformedToken),
        Some(parts) => match find_weight(hidden, p.current, parts.1) {
            Err(e) => Err(e),
            Ok(z) => match find_weight(observed, parts.1, parts.0) {
                Err(e) => Err(e),
                Ok(e) => Ok(Path { current: parts.1, product: p.product * z * e }),
            },
        },
    }
}

/// The path over the first `n` tokens through the base model.
pub open spec fn base_path(
    hidden: DistModel,
    observed: DistModel,
    tokens: Seq<Seq<char>>,
    n: nat,
) -> Result<Path, LookupError>
    decreases n,
{
    if n == 0 {
        Ok(Path { current: start_key(), product: 1 as real })
    } else {
        match base_path(hidden, observed, tokens, (n - 1) as nat) {
            Err(e) => Err(e),
            Ok(p) => path_step(p, hidden, observed, tokens[n - 1]),
        }
    }
}

/// The path over the first `n` tokens through the positional model. A token
/// behind the last position has no probability.
pub open spec fn positional_path(
    h: Seq<DistModel>,
    o: Seq<DistModel>,
    tokens: Seq<Seq<char>>,
    n: nat,
) -> Result<Path, LookupError>
    decreases n,
{
    if n == 0 {
        Ok(Path { current: start_key(), product: 1 as real })
    } else {
        match positional_path(h, o, tokens, (n - 1) as nat) {
            Err(e) => Err(e),
            Ok(p) => if token_parts(tokens[n - 1]) is None {
                Err(LookupError::MalformedToken)
            } else if n > h.len() {
                Err(LookupError::PositionOutOfRange)
            } else {
                path_step(p, h[n - 1], o[n - 1], tokens[n - 1])
            },
        }
    }
}

} // verus!
