//! The base model: how often each hidden context follows each other one, and
//! how often each surface form is seen at each hidden context.

use crate::corpus::{
    join_with_spaces, labels, slices, split_token, split_tokens, start_key, surfaces, to_owned_all,
    token_parts, well_formed, START_TOKEN,
};
use crate::counting::{counts_ok, lemma_normalized_counts, lemma_step_counts_ok};
use crate::distribution::Distribution;
use crate::errors::{CorpusFormatError, LookupError};
use crate::laws::{covered, stochastic};
use crate::model::{counted, distinct, nonneg, normalized, DistModel, RowModel};
use crate::sampling::{next_token, random_draws};
use crate::text::{
    extend_chars, from_chars, joined, push_char, push_text, split, split_on, to_chars, views, words,
    words_of,
};
use crate::walk::{
    base_path, base_step, base_walk, lemma_base_walk_stopped, pairs_text, shorter, steps_for,
    token_text, Path,
};
use crate::weight::Weight;
use vstd::prelude::*;

verus! {

/// Transition counts and emission counts, or the distributions made of them.
pub type Counts = (DistModel, DistModel);

/// The counts of a model that has seen nothing.
pub open spec fn no_counts() -> Counts {
    (Seq::<(Seq<char>, RowModel)>::empty(), Seq::<(Seq<char>, RowModel)>::empty())
}

/// The keys that one step of a line adds to the counts: the hidden context
/// before the step, the hidden context of the step, and its surface forms.
/// Only as many tokens count as both lists have.
pub open spec fn step_keys(tokens: Seq<Seq<char>>, next: Seq<Seq<char>>) -> Option<
    (Seq<char>, Seq<char>, Seq<char>),
> {
    let n = if tokens.len() <= next.len() {
        tokens.len() as int
    } else {
        next.len() as int
    };
    let a = tokens.take(n);
    let b = next.take(n);
    if well_formed(a) && well_formed(b) {
        Some((joined(labels(a), ' '), joined(labels(b), ' '), joined(surfaces(b), ' ')))
    } else {
        None
    }
}

/// The `c`-th window of `order` tokens.
pub open spec fn window(tokens: Seq<Seq<char>>, order: int, c: int) -> Seq<Seq<char>> {
    tokens.subrange(c * order, (c + 1) * order)
}

/// The hidden context before the `c`-th window: `order` start labels before
/// the first window, else the labels of the window before.
pub open spec fn context_key(tokens: Seq<Seq<char>>, order: int, c: int) -> Seq<char> {
    if c == 0 {
        joined(Seq::new(order as nat, |k: int| start_key()), ' ')
    } else {
        joined(labels(window(tokens, order, c - 1)), ' ')
    }
}

/// The number of whole windows in a line.
pub open spec fn windows_in(tokens: Seq<Seq<char>>, order: int) -> int {
    tokens.len() as int / order
}

/// Whether every token that lies in a whole window is well formed.
pub open spec fn line_ok(tokens: Seq<Seq<char>>, order: int) -> bool {
    well_formed(tokens.take(windows_in(tokens, order) * order))
}

/// The counts after the first `n` windows of a line.
pub open spec fn after_windows(m: Counts, tokens: Seq<Seq<char>>, order: int, n: nat) -> Counts
    decreases n,
{
    if n == 0 {
        m
    } else {
        let prior = after_windows(m, tokens, order, (n - 1) as nat);
        let hidden = joined(labels(window(tokens, order, n - 1)), ' ');
        let observed = joined(surfaces(window(tokens, order, n - 1)), ' ');
        (
            counted(prior.0, context_key(tokens, order, n - 1), hidden),
            counted(prior.1, hidden, observed),
        )
    }
}

/// The counts after a line.
pub open spec fn after_line(m: Counts, line: Seq<char>, order: int) -> Counts {
    after_windows(m, words_of(line), order, windows_in(words_of(line), order) as nat)
}

/// Whether every line of the corpus can be counted.
pub open spec fn corpus_ok(lines: Seq<Seq<char>>, order: int) -> bool {
    forall|l: int| 0 <= l < lines.len() ==> line_ok(words_of(#[trigger] lines[l]), order)
}

/// The counts after the first `n` lines.
pub open spec fn after_lines(m: Counts, lines: Seq<Seq<char>>, order: int, n: nat) -> Counts
    decreases n,
{
    if n == 0 {
        m
    } else {
        after_line(after_lines(m, lines, order, (n - 1) as nat), lines[n - 1], order)
    }
}

/// The distributions that training on a corpus gives: the counts of all its
/// lines, each row divided by its total. A corpus with a malformed token in
/// a whole window gives none.
pub open spec fn trained(corpus: Seq<char>, order: int) -> Option<Counts> {
    let lines = split_on(corpus, '\n');
    if corpus_ok(lines, order) {
        let counts = after_lines(no_counts(), lines, order, lines.len());
        Some((normalized(counts.0), normalized(counts.1)))
    } else {
        None
    }
}

/// Whether a pair of distributions is as training leaves it: no key occurs
/// twice, no weight is negative, every row sums to 1, and every hidden
/// context that a transition leads to has a row of emissions.
pub open spec fn well_trained(m: Counts) -> bool {
    &&& distinct(m.0)
    &&& distinct(m.1)
    &&& nonneg(m.0)
    &&& nonneg(m.1)
    &&& stochastic(m.0)
    &&& stochastic(m.1)
    &&& covered(m.0, m.1)
}

/// Counting the windows of a line keeps the counts in order.
pub proof fn lemma_after_windows(m: Counts, tokens: Seq<Seq<char>>, order: int, n: nat)
    requires
        counts_ok(m.0, m.1),
    ensures
        counts_ok(after_windows(m, tokens, order, n).0, after_windows(m, tokens, order, n).1),
    decreases n,
{
    if n > 0 {
        lemma_after_windows(m, tokens, order, (n - 1) as nat);
        let prior = after_windows(m, tokens, order, (n - 1) as nat);
        lemma_step_counts_ok(
            prior.0,
            prior.1,
            context_key(tokens, order, n - 1),
            joined(labels(window(tokens, order, n - 1)), ' '),
            joined(surfaces(window(tokens, order, n - 1)), ' '),
        );
    }
}

/// Counting lines keeps the counts in order.
pub proof fn lemma_after_lines(m: Counts, lines: Seq<Seq<char>>, order: int, n: nat)
    requires
        counts_ok(m.0, m.1),
    ensures
        counts_ok(after_lines(m, lines, order, n).0, after_lines(m, lines, order, n).1),
    decreases n,
{
    if n > 0 {
        lemma_after_lines(m, lines, order, (n - 1) as nat);
        let prior = after_lines(m, lines, order, (n - 1) as nat);
        let tokens = words_of(lines[n - 1]);
        lemma_after_windows(prior, tokens, order, windows_in(tokens, order) as nat);
    }
}

/// Training leaves distributions without repeated keys and without
/// negative weights whose rows sum to 1, and in which every hidden context
/// that a transition leads to has a row of emissions.
pub proof fn lemma_trained(corpus: Seq<char>, order: int)
    ensures
        trained(corpus, order) matches Some(m) ==> well_trained(m),
{
    let lines = split_on(corpus, '\n');
    if corpus_ok(lines, order) {
        lemma_after_lines(no_counts(), lines, order, lines.len());
        let counts = after_lines(no_counts(), lines, order, lines.len());
        lemma_normalized_counts(counts.0, counts.1);
    }
}

/// A hidden Markov model of some order over labelled text.
#[derive(Debug)]
pub struct HiddenMarkov {
    pub markov_order: u32,
    pub hidden_probs: Distribution,
    pub observed_probs: Distribution,
}

/// A path that has failed stays failed, with the same error.
pub proof fn lemma_base_path_failed(
    h: DistModel,
    o: DistModel,
    tokens: Seq<Seq<char>>,
    n: nat,
    m: nat,
)
    requires
        n <= m,
        base_path(h, o, tokens, n) is Err,
    ensures
        base_path(h, o, tokens, m) == base_path(h, o, tokens, n),
    decreases m - n,
{
    if n < m {
        lemma_base_path_failed(h, o, tokens, n, (m - 1) as nat);
    }
}

/// The tokens of a whole window lie within the line.
proof fn lemma_window_bounds(len: int, order: int, c: int)
    requires
        order >= 1,
        len >= 0,
        0 <= c < len / order,
    ensures
        0 <= c * order,
        c * order + order == (c + 1) * order,
        (c + 1) * order <= (len / order) * order <= len,
{
    let n = len / order;
    vstd::arithmetic::div_mod::lemma_fundamental_div_mod(len, order);
    vstd::arithmetic::div_mod::lemma_mod_bound(len, order);
    assert(order * n == n * order) by (nonlinear_arith);
    assert(0 <= c * order) by (nonlinear_arith)
        requires
            0 <= c,
            order >= 1,
    ;
    assert(c * order + order == (c + 1) * order) by (nonlinear_arith);
    assert((c + 1) * order <= n * order) by (nonlinear_arith)
        requires
            c + 1 <= n,
            order >= 1,
    ;
}

/// The hidden context before the first window: `order` start labels.
pub fn start_context(order: u32) -> (r: String)
    ensures
        r@ == joined(Seq::new(order as nat, |k: int| start_key()), ' '),
{
    let ghost all = Seq::new(order as nat, |k: int| start_key());
    let mut r = String::new();
    let mut k: u32 = 0;
    while k < order
        invariant
            k <= order,
            all == Seq::new(order as nat, |k: int| start_key()),
            r@ == joined(all.take(k as int), ' '),
        decreases order - k,
    {
        let ghost before = r@;
        if k > 0 {
            push_char(&mut r, ' ');
        }
        push_text(&mut r, START_TOKEN);
        proof {
            let next = all.take(k + 1);
            assert(next.drop_last() == all.take(k as int));
            assert(next.last() == start_key());
            if k == 0 {
                assert(before + start_key() == start_key());
            }
        }
        k += 1;
    }
    proof {
        assert(all.take(k as int) == all);
    }
    r
}

impl HiddenMarkov {
    /// A model of the given order, trained on the corpus `data`.
    pub fn new(markov_order: u32, data: String) -> (r: Result<HiddenMarkov, CorpusFormatError>)
        requires
            markov_order >= 1,
        ensures
            match trained(data@, markov_order as int) {
                Some(m) => r matches Ok(hmm) && hmm.markov_order == markov_order && hmm.counts()
                    == m && well_trained(hmm.counts()),
                None => r is Err,
            },
    {
        let mut hmm = HiddenMarkov {
            markov_order,
            hidden_probs: Distribution::new(),
            observed_probs: Distribution::new(),
        };
        match hmm.train(data) {
            Ok(()) => Ok(hmm),
            Err(e) => Err(e),
        }
    }

    /// Forgets what was counted and trains on the corpus `data`: one example
    /// per line, tokens of the form `surface:hidden` between white space. A
    /// malformed token in a whole window leaves the model empty.
    pub fn train(&mut self, data: String) -> (r: Result<(), CorpusFormatError>)
        requires
            old(self).markov_order >= 1,
        ensures
            final(self).markov_order == old(self).markov_order,
            match trained(data@, old(self).markov_order as int) {
                Some(m) => r is Ok && final(self).counts() == m && well_trained(
                    final(self).counts(),
                ),
                None => r is Err && final(self).counts() == no_counts(),
            },
    {
        proof {
            lemma_trained(data@, self.markov_order as int);
        }
        self.clear_probs();
        let chars = to_chars(data.as_str());
        let lines = split(&chars, '\n');
        let ghost texts = views(lines@);
        let ghost order = self.markov_order as int;
        let mut l: usize = 0;
        while l < lines.len()
            invariant
                l <= lines.len(),
                texts == views(lines@),
                texts == split_on(data@, '\n'),
                self.markov_order == old(self).markov_order,
                order == self.markov_order as int,
                order >= 1,
                forall|j: int| 0 <= j < l ==> line_ok(words_of(#[trigger] texts[j]), order),
                self.counts() == after_lines(no_counts(), texts, order, l as nat),
            decreases lines.len() - l,
        {
            assert(texts[l as int] == lines[l as int]@);
            match self.process_line(lines[l].as_str()) {
                Ok(()) => {},
                Err(e) => {
                    self.clear_probs();
                    return Err(e);
                },
            }
            l += 1;
        }
        self.normalize();
        Ok(())
    }

    /// Counts the windows of one line. A malformed token in a whole window
    /// leaves the model as it was.
    pub fn process_line(&mut self, line: &str) -> (r: Result<(), CorpusFormatError>)
        requires
            old(self).markov_order >= 1,
        ensures
            final(self).markov_order == old(self).markov_order,
            line_ok(words_of(line@), old(self).markov_order as int) <==> r is Ok,
            r is Ok ==> final(self).counts() == after_line(
                old(self).counts(),
                line@,
                old(self).markov_order as int,
            ),
            r is Err ==> final(self).counts() == old(self).counts(),
    {
        let chars = to_chars(line);
        let tokens = words(&chars);
        let ghost texts = views(tokens@);
        let ghost start = self.counts();
        let size: usize = self.markov_order as usize;
        let ghost order = size as int;
        let n: usize = tokens.len() / size;
        proof {
            assert(texts == words_of(line@));
            assert(texts.len() == tokens.len());
            vstd::arithmetic::div_mod::lemma_fundamental_div_mod(tokens.len() as int, order);
            vstd::arithmetic::div_mod::lemma_mod_bound(tokens.len() as int, order);
            assert(order * (n as int) == n * order) by (nonlinear_arith);
        }
        let whole: usize = n * size;
        let parts = match split_tokens(&tokens, whole) {
            Ok(pair) => pair,
            Err(e) => {
                return Err(e);
            },
        };
        let observed_all = parts.0;
        let hidden_all = parts.1;
        let mut context = start_context(self.markov_order);
        let mut c: usize = 0;
        while c < n
            invariant
                c <= n,
                size == self.markov_order,
                order == size as int,
                order >= 1,
                n == tokens.len() as int / order,
                whole == n * order,
                texts == views(tokens@),
                self.markov_order == old(self).markov_order,
                views(observed_all@) == surfaces(texts.take(whole as int)),
                views(hidden_all@) == labels(texts.take(whole as int)),
                context@ == context_key(texts, order, c as int),
                self.counts() == after_windows(start, texts, order, c as nat),
            decreases n - c,
        {
            proof {
                lemma_window_bounds(tokens.len() as int, order, c as int);
                assert(views(hidden_all@).len() == whole);
                assert(views(observed_all@).len() == whole);
            }
            let from: usize = c * size;
            let to: usize = from + size;
            let hidden = join_with_spaces(&hidden_all, from, to);
            let observed = join_with_spaces(&observed_all, from, to);
            proof {
                let w = window(texts, order, c as int);
                assert(views(hidden_all@).subrange(from as int, to as int) =~= labels(w));
                assert(views(observed_all@).subrange(from as int, to as int) =~= surfaces(w));
            }
            self.hidden_probs.increment(context.as_str(), hidden.as_str());
            self.observed_probs.increment(hidden.as_str(), observed.as_str());
            context = hidden;
            c += 1;
        }
        Ok(())
    }

    /// The counts that the model holds.
    pub open spec fn counts(&self) -> Counts {
        (self.hidden_probs@, self.observed_probs@)
    }

    /// Forgets everything that was counted.
    pub fn clear_probs(&mut self)
        ensures
            final(self).markov_order == old(self).markov_order,
            final(self).counts() == no_counts(),
    {
        self.hidden_probs.clear();
        self.observed_probs.clear();
    }

    /// Splits a token into its surface form and its hidden label.
    pub fn split_token(token: &str) -> (r: Result<(String, String), CorpusFormatError>)
        ensures
            match token_parts(token@) {
                Some(parts) => r matches Ok(pair) && pair.0@ == parts.0 && pair.1@ == parts.1,
                None => r is Err,
            },
    {
        split_token(token)
    }

    /// Counts one more transition from `hidden` to `next_hidden`.
    pub fn increment_hidden(&mut self, hidden: String, next_hidden: String)
        ensures
            final(self).markov_order == old(self).markov_order,
            final(self).observed_probs == old(self).observed_probs,
            final(self).hidden_probs@ == counted(old(self).hidden_probs@, hidden@, next_hidden@),
    {
        self.hidden_probs.increment(hidden.as_str(), next_hidden.as_str());
    }

    /// Counts one more sighting of `observed` at `hidden`.
    pub fn increment_observed(&mut self, hidden: String, observed: String)
        ensures
            final(self).markov_order == old(self).markov_order,
            final(self).hidden_probs == old(self).hidden_probs,
            final(self).observed_probs@ == counted(old(self).observed_probs@, hidden@, observed@),
    {
        self.observed_probs.increment(hidden.as_str(), observed.as_str());
    }

    /// Counts one step: the transition from the labels of `tokens` to the
    /// labels of `next_tokens`, and the surface forms of `next_tokens` at
    /// their labels. A malformed token leaves the model as it was.
    pub fn increment(&mut self, tokens: Vec<&str>, next_tokens: Vec<&str>) -> (r: Result<
        (),
        CorpusFormatError,
    >)
        ensures
            final(self).markov_order == old(self).markov_order,
            match step_keys(slices(tokens@), slices(next_tokens@)) {
                Some(keys) => r is Ok && final(self).hidden_probs@ == counted(
                    old(self).hidden_probs@,
                    keys.0,
                    keys.1,
                ) && final(self).observed_probs@ == counted(
                    old(self).observed_probs@,
                    keys.1,
                    keys.2,
                ),
                None => r is Err && final(self).counts() == old(self).counts(),
            },
    {
        let n = if tokens.len() <= next_tokens.len() {
            tokens.len()
        } else {
            next_tokens.len()
        };
        let first = to_owned_all(&tokens);
        let second = to_owned_all(&next_tokens);
        let before = match split_tokens(&first, n) {
            Ok(pair) => pair,
            Err(e) => {
                return Err(e);
            },
        };
        let after = match split_tokens(&second, n) {
            Ok(pair) => pair,
            Err(e) => {
                return Err(e);
            },
        };
        proof {
            assert(views(before.1@).subrange(0, n as int) == views(before.1@));
            assert(views(after.1@).subrange(0, n as int) == views(after.1@));
            assert(views(after.0@).subrange(0, n as int) == views(after.0@));
        }
        let hidden = join_with_spaces(&before.1, 0, n);
        let next_hidden = join_with_spaces(&after.1, 0, n);
        let next_observed = join_with_spaces(&after.0, 0, n);
        self.hidden_probs.increment(hidden.as_str(), next_hidden.as_str());
        self.observed_probs.increment(next_hidden.as_str(), next_observed.as_str());
        Ok(())
    }

    /// Divides every row of both distributions by its total.
    pub fn normalize(&mut self)
        ensures
            final(self).markov_order == old(self).markov_order,
            final(self).hidden_probs@ == normalized(old(self).hidden_probs@),
            final(self).observed_probs@ == normalized(old(self).observed_probs@),
    {
        HiddenMarkov::normalize_nested_map(&mut self.hidden_probs);
        HiddenMarkov::normalize_nested_map(&mut self.observed_probs);
    }

    /// Divides every row of the distribution by its total.
    pub fn normalize_nested_map(map: &mut Distribution)
        ensures
            final(map)@ == normalized(old(map)@),
    {
        map.normalize();
    }

    /// Generates a sequence of about `length` tokens from the given draws,
    /// one for the hidden context and one for the surface forms of every
    /// step. A step writes as many tokens as the order of the model says.
    pub fn sample_sequence_with(
        &self,
        length: i32,
        hidden_draws: &Vec<u64>,
        observed_draws: &Vec<u64>,
    ) -> (r: String)
        requires
            self.markov_order >= 1,
            hidden_draws.len() >= steps_for(length as int, self.markov_order as int),
            observed_draws.len() >= steps_for(length as int, self.markov_order as int),
        ensures
            r@ == base_walk(
                self.hidden_probs@,
                self.observed_probs@,
                self.markov_order as nat,
                length as int,
                hidden_draws@,
                observed_draws@,
                steps_for(length as int, self.markov_order as int),
            ).text,
    {
        let ghost h = self.hidden_probs@;
        let ghost o = self.observed_probs@;
        let ghost order = self.markov_order as nat;
        let ghost xs = hidden_draws@;
        let ghost ys = observed_draws@;
        let mut sequence: Vec<char> = Vec::new();
        let mut current: String = start_context(self.markov_order);
        if length <= 0 {
            return String::new();
        }
        let steps: u32 = (length as u32) / self.markov_order;
        let mut i: u32 = 0;
        while i < steps
            invariant
                i <= steps,
                length > 0,
                steps == steps_for(length as int, self.markov_order as int),
                hidden_draws.len() >= steps,
                observed_draws.len() >= steps,
                h == self.hidden_probs@,
                o == self.observed_probs@,
                order == self.markov_order as nat,
                xs == hidden_draws@,
                ys == observed_draws@,
                !base_walk(h, o, order, length as int, xs, ys, i as nat).stopped,
                base_walk(h, o, order, length as int, xs, ys, i as nat).current == current@,
                base_walk(h, o, order, length as int, xs, ys, i as nat).text == sequence@,
            decreases steps - i,
        {
            let ghost before = base_walk(h, o, order, length as int, xs, ys, i as nat);
            let ghost after = base_walk(h, o, order, length as int, xs, ys, (i + 1) as nat);
            proof {
                assert(after == base_step(
                    before,
                    h,
                    o,
                    xs[i as int],
                    ys[i as int],
                    i + 1 == length,
                ));
            }
            match self.hidden_probs.find_row(current.as_str()) {
                Some(j) => {
                    current = next_token(
                        &self.hidden_probs.rows[j].entries,
                        hidden_draws[i as usize],
                    );
                },
                None => {
                    proof {
                        lemma_base_walk_stopped(
                            h,
                            o,
                            order,
                            length as int,
                            xs,
                            ys,
                            (i + 1) as nat,
                            steps as nat,
                        );
                        assert(sequence@.subrange(0, sequence.len() as int) == sequence@);
                    }
                    return from_chars(&sequence, 0, sequence.len());
                },
            }
            match self.observed_probs.find_row(current.as_str()) {
                Some(e) => {
                    let observed = next_token(
                        &self.observed_probs.rows[e].entries,
                        observed_draws[i as usize],
                    );
                    let surfaces = words(&to_chars(observed.as_str()));
                    let labels = words(&to_chars(current.as_str()));
                    let pairs: usize = if surfaces.len() <= labels.len() {
                        surfaces.len()
                    } else {
                        labels.len()
                    };
                    let ghost text = sequence@;
                    let ghost a = views(surfaces@);
                    let ghost b = views(labels@);
                    let mut k: usize = 0;
                    while k < pairs
                        invariant
                            k <= pairs,
                            pairs <= surfaces.len(),
                            pairs <= labels.len(),
                            a == views(surfaces@),
                            b == views(labels@),
                            sequence@ == text + pairs_text(a, b, k as nat),
                        decreases pairs - k,
                    {
                        let ghost so_far = sequence@;
                        extend_chars(&mut sequence, surfaces[k].as_str());
                        sequence.push(':');
                        extend_chars(&mut sequence, labels[k].as_str());
                        sequence.push(' ');
                        proof {
                            assert(a[k as int] == surfaces[k as int]@);
                            assert(b[k as int] == labels[k as int]@);
                            assert(sequence@ =~= so_far + token_text(a[k as int], b[k as int]).push(
                                ' ',
                            ));
                            assert(text + pairs_text(a, b, k as nat) + token_text(
                                a[k as int],
                                b[k as int],
                            ).push(' ') =~= text + pairs_text(a, b, (k + 1) as nat));
                        }
                        k += 1;
                    }
                    proof {
                        assert(pairs == shorter(a.len(), b.len()));
                    }
                    let ghost written = sequence@;
                    sequence.pop();
                    proof {
                        if written.len() > 0 {
                            assert(sequence@ == written.drop_last());
                        }
                    }
                    if i as i64 != length as i64 - 1 {
                        sequence.push(' ');
                    }
                },
                None => {},
            }
            i += 1;
        }
        proof {
            assert(sequence@.subrange(0, sequence.len() as int) == sequence@);
        }
        from_chars(&sequence, 0, sequence.len())
    }

    /// Generates a sequence of about `length` tokens from random draws.
    pub fn sample_sequence(&self, length: i32) -> (r: String)
        requires
            self.markov_order >= 1,
        ensures
            exists|xs: Seq<u64>, ys: Seq<u64>|
                r@ == (#[trigger] base_walk(
                    self.hidden_probs@,
                    self.observed_probs@,
                    self.markov_order as nat,
                    length as int,
                    xs,
                    ys,
                    steps_for(length as int, self.markov_order as int),
                )).text,
    {
        let steps: usize = if length <= 0 {
            0
        } else {
            ((length as u32) / self.markov_order) as usize
        };
        let hidden_draws = random_draws(steps);
        let observed_draws = random_draws(steps);
        self.sample_sequence_with(length, &hidden_draws, &observed_draws)
    }

    /// The probability that the model generates the given sequence: the
    /// product, token by token, of the probability of the transition to the
    /// token's label and that of its surface form at the label.
    pub fn get_sequence_probability(&self, sequence: &str) -> (r: Result<Weight, LookupError>)
        ensures
            match base_path(
                self.hidden_probs@,
                self.observed_probs@,
                words_of(sequence@),
                words_of(sequence@).len(),
            ) {
                Ok(p) => r matches Ok(w) && w.value() == p.product,
                Err(e) => r matches Err(f) && f == e,
            },
    {
        let ghost h = self.hidden_probs@;
        let ghost o = self.observed_probs@;
        let chars = to_chars(sequence);
        let tokens = words(&chars);
        let ghost texts = views(tokens@);
        let mut product = Weight::one();
        let mut current: String = START_TOKEN.to_owned();
        let mut i: usize = 0;
        while i < tokens.len()
            invariant
                i <= tokens.len(),
                h == self.hidden_probs@,
                o == self.observed_probs@,
                texts == views(tokens@),
                texts == words_of(sequence@),
                base_path(h, o, texts, i as nat) == Ok::<Path, LookupError>(
                    Path { current: current@, product: product.value() },
                ),
            decreases tokens.len() - i,
        {
            proof {
                assert(texts[i as int] == tokens[i as int]@);
            }
            let parts = match split_token(tokens[i].as_str()) {
                Ok(parts) => parts,
                Err(_) => {
                    proof {
                        lemma_base_path_failed(h, o, texts, (i + 1) as nat, texts.len());
                    }
                    return Err(LookupError::MalformedToken);
                },
            };
            let transition = match self.hidden_probs.find_weight(
                current.as_str(),
                parts.1.as_str(),
            ) {
                Ok(w) => w,
                Err(e) => {
                    proof {
                        lemma_base_path_failed(h, o, texts, (i + 1) as nat, texts.len());
                    }
                    return Err(e);
                },
            };
            let emission = match self.observed_probs.find_weight(
                parts.1.as_str(),
                parts.0.as_str(),
            ) {
                Ok(w) => w,
                Err(e) => {
                    proof {
                        lemma_base_path_failed(h, o, texts, (i + 1) as nat, texts.len());
                    }
                    return Err(e);
                },
            };
            product = product.times(&transition).times(&emission);
            current = parts.1;
            i += 1;
        }
        Ok(product)
    }
}

impl Clone for HiddenMarkov {
    fn clone(&self) -> (r: HiddenMarkov)
        ensures
            r.markov_order == self.markov_order,
            r.counts() == self.counts(),
    {
        HiddenMarkov {
            markov_order: self.markov_order,
            hidden_probs: self.hidden_probs.duplicate(),
            observed_probs: self.observed_probs.duplicate(),
        }
    }
}

} // verus!
