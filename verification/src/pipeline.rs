//! Generated text and attention activity on their way to the screen.
use crate::float::Single;
use crate::perf;
use crate::text;
use std::collections::{HashMap, VecDeque};
use vstd::prelude::*;

verus! {

/// How many characters of generated text are kept and shown.
pub const SHOWN_CHARS: usize = 200;

/// Collects generated token text for display
#[derive(Clone, Debug)]
pub struct GeneratedText {
    pub tokens: Vec<String>,
}

/// The texts of some tokens, one after the other.
pub open spec fn together(tokens: Seq<Seq<char>>) -> Seq<char>
    decreases tokens.len(),
{
    if tokens.len() == 0 {
        Seq::empty()
    } else {
        together(tokens.drop_last()) + tokens.last()
    }
}

/// What is shown of some tokens: the last characters of their text, or all of it
/// where a single token holds several lines.
pub open spec fn shown_text(tokens: Seq<Seq<char>>) -> Seq<char> {
    let full = together(tokens);
    if is_status(tokens) {
        full
    } else if full.len() > SHOWN_CHARS {
        full.skip(full.len() - SHOWN_CHARS)
    } else {
        full
    }
}

/// A single token that holds several lines: a status, not generated text.
pub open spec fn is_status(tokens: Seq<Seq<char>>) -> bool {
    tokens.len() == 1 && text::has_part(tokens[0], "\n"@)
}

/// The tokens once one has been given a text: that of its index, or a further one
/// where there is no token with that index yet.
pub open spec fn with_token(tokens: Seq<Seq<char>>, index: int, text: Seq<char>) -> Seq<Seq<char>> {
    if index < tokens.len() {
        tokens.update(index, text)
    } else {
        tokens.push(text)
    }
}

/// The tokens without the first `n` characters of their text. A token that has
/// lost all of its text stays, so that every token keeps its index.
pub open spec fn without_first(tokens: Seq<Seq<char>>, n: int) -> Seq<Seq<char>>
    decreases tokens.len(),
{
    if tokens.len() == 0 {
        tokens
    } else if n >= tokens[0].len() {
        seq![Seq::<char>::empty()] + without_first(tokens.drop_first(), n - tokens[0].len())
    } else {
        seq![tokens[0].skip(n)] + tokens.drop_first()
    }
}

/// What is kept of some tokens: the last characters of their text, or all of a
/// status.
pub open spec fn kept_tokens(tokens: Seq<Seq<char>>) -> Seq<Seq<char>> {
    let n = together(tokens).len();
    if is_status(tokens) || n <= SHOWN_CHARS {
        tokens
    } else {
        without_first(tokens, n - SHOWN_CHARS)
    }
}

proof fn lemma_together_front(tokens: Seq<Seq<char>>)
    requires
        tokens.len() > 0,
    ensures
        together(tokens) == tokens[0] + together(tokens.drop_first()),
    decreases tokens.len(),
{
    if tokens.len() == 1 {
        assert(tokens.drop_last() =~= Seq::<Seq<char>>::empty());
        assert(tokens.drop_first() =~= Seq::<Seq<char>>::empty());
        assert(together(tokens) =~= tokens[0] + together(tokens.drop_first()));
    } else {
        lemma_together_front(tokens.drop_last());
        assert(tokens.drop_last().drop_first() =~= tokens.drop_first().drop_last());
        assert(together(tokens) =~= tokens[0] + together(tokens.drop_first()));
    }
}

/// Taking characters from the tokens takes them from the text, and no token away.
proof fn lemma_without_first(tokens: Seq<Seq<char>>, n: int)
    requires
        0 <= n <= together(tokens).len(),
    ensures
        together(without_first(tokens, n)) == together(tokens).skip(n),
        without_first(tokens, n).len() == tokens.len(),
    decreases tokens.len(),
{
    if tokens.len() == 0 {
        assert(together(tokens).skip(n) =~= together(tokens));
    } else {
        let rest = tokens.drop_first();
        lemma_together_front(tokens);
        let out = without_first(tokens, n);
        if n >= tokens[0].len() {
            let m = n - tokens[0].len();
            lemma_without_first(rest, m);
            assert(out.drop_first() =~= without_first(rest, m));
        } else {
            assert(out.drop_first() =~= rest);
        }
        lemma_together_front(out);
        assert(together(out) =~= together(tokens).skip(n));
    }
}

/// Generated text is kept up to its last 200 characters, and every token keeps its
/// index: the text of what is kept is the end of the text, and what is shown of it
/// is what would be shown of all.
pub proof fn the_end_of_the_text_is_kept(tokens: Seq<Seq<char>>)
    requires
        !is_status(tokens),
    ensures
        ({
            let n = together(tokens).len();
            let least = if n < SHOWN_CHARS {
                n as int
            } else {
                SHOWN_CHARS as int
            };
            &&& together(kept_tokens(tokens)) == together(tokens).skip(n - least)
            &&& together(kept_tokens(tokens)).len() == least
        }),
        kept_tokens(tokens).len() == tokens.len(),
        shown_text(kept_tokens(tokens)) == shown_text(tokens),
{
    let n = together(tokens).len();
    if n > SHOWN_CHARS {
        lemma_without_first(tokens, n - SHOWN_CHARS);
        let kept = kept_tokens(tokens);
        if is_status(kept) {
            reveal_with_fuel(together, 2);
            let t = tokens[0];
            let k = n - SHOWN_CHARS;
            assert(tokens.drop_last() =~= Seq::<Seq<char>>::empty());
            assert(together(tokens) =~= t);
            assert(kept[0] == t.skip(k));
            let i = choose|i: int| text::has_at(kept[0], "\n"@, i);
            assert(t.subrange(i + k, i + k + "\n"@.len()) =~= kept[0].subrange(
                i,
                i + "\n"@.len(),
            ));
            assert(text::has_at(t, "\n"@, i + k));
        }
    } else {
        assert(together(tokens).skip(0) =~= together(tokens));
    }
}

impl Default for GeneratedText {
    fn default() -> (r: GeneratedText)
        ensures
            r.tokens@ == Seq::<String>::empty(),
    {
        let tokens: Vec<String> = Vec::new();
        assert(tokens@ =~= Seq::<String>::empty());
        GeneratedText { tokens }
    }
}

impl GeneratedText {
    pub fn new() -> (r: GeneratedText)
        ensures
            r.tokens@ == Seq::<String>::empty(),
    {
        GeneratedText::default()
    }

    /// The text of the tokens.
    fn full_text(&self) -> (r: Vec<char>)
        ensures
            r@ == together(text::strings(self.tokens@)),
    {
        let ghost all = text::strings(self.tokens@);
        let mut full: Vec<char> = Vec::new();
        let mut i: usize = 0;
        assert(all.take(0) =~= Seq::<Seq<char>>::empty());
        assert(full@ =~= together(all.take(0)));
        while i < self.tokens.len()
            invariant
                i <= self.tokens.len(),
                all == text::strings(self.tokens@),
                full@ == together(all.take(i as int)),
            decreases self.tokens.len() - i,
        {
            assert(all[i as int] == self.tokens@[i as int]@);
            assert(all.take(i + 1).drop_last() =~= all.take(i as int));
            text::add_str(&mut full, self.tokens[i].as_str());
            i += 1;
        }
        assert(all.take(all.len() as int) =~= all);
        full
    }

    /// Whether the text is a status.
    fn holds_status(&self) -> (r: bool)
        ensures
            r == is_status(text::strings(self.tokens@)),
    {
        if self.tokens.len() != 1 {
            return false;
        }
        assert(text::strings(self.tokens@)[0] == self.tokens@[0]@);
        text::contains(&text::chars_of(self.tokens[0].as_str()), "\n")
    }

    /// Takes the first `n` characters away.
    fn drop_front(&mut self, n: usize)
        ensures
            text::strings(final(self).tokens@) == without_first(
                text::strings(old(self).tokens@),
                n as int,
            ),
    {
        let ghost all = text::strings(self.tokens@);
        let ghost want = without_first(all, n as int);
        let mut left: usize = n;
        let mut i: usize = 0;
        assert(all.skip(0) =~= all);
        assert(all.take(0) + want =~= want);
        while i < self.tokens.len()
            invariant
                i <= self.tokens.len(),
                all == text::strings(old(self).tokens@),
                want == without_first(all, n as int),
                self.tokens@.len() == all.len(),
                text::strings(self.tokens@).skip(i as int) == all.skip(i as int),
                text::strings(self.tokens@).take(i as int) + without_first(
                    all.skip(i as int),
                    left as int,
                ) == want,
            decreases self.tokens.len() - i,
        {
            let ghost before = text::strings(self.tokens@);
            let ghost rest = all.skip(i as int);
            let token = text::chars_of(self.tokens[i].as_str());
            proof {
                assert(before.skip(i as int)[0] == before[i as int]);
                assert(rest[0] == token@);
                assert(rest.drop_first() =~= all.skip(i + 1));
            }
            if left < token.len() {
                let tail = text::part(&token, left, token.len());
                self.tokens.set(i, text::string_of(&tail));
                proof {
                    let now = text::strings(self.tokens@);
                    assert(tail@ =~= token@.skip(left as int));
                    assert(now =~= before.update(i as int, tail@));
                    assert(now =~= before.take(i as int) + (seq![tail@] + all.skip(i + 1))) by {
                        assert forall|j: int| i < j < now.len() implies now[j] == all[j] by {
                            assert(before.skip(i as int)[j - i] == all.skip(i as int)[j - i]);
                        }
                    }
                }
                return;
            }
            left -= token.len();
            self.tokens.set(i, String::new());
            proof {
                let now = text::strings(self.tokens@);
                let none = Seq::<char>::empty();
                assert(self.tokens@[i as int]@ =~= none);
                assert(now =~= before.update(i as int, none));
                assert(now.take(i + 1) =~= before.take(i as int).push(none));
                let after = without_first(all.skip(i + 1), left as int);
                assert(now.take(i + 1) + after =~= before.take(i as int) + (seq![none] + after));
                assert(now.skip(i + 1) =~= all.skip(i + 1)) by {
                    assert forall|j: int| i < j < now.len() implies now[j] == all[j] by {
                        assert(before.skip(i as int)[j - i] == all.skip(i as int)[j - i]);
                    }
                }
            }
            i += 1;
        }
        proof {
            let now = text::strings(self.tokens@);
            assert(all.skip(i as int) =~= Seq::<Seq<char>>::empty());
            assert(now.take(i as int) =~= now);
            assert(now + Seq::<Seq<char>>::empty() =~= now);
        }
    }

    /// Append a token's text, keeping the last 200 chars max: sets the text of the
    /// token with that index where there is one. A status is kept whole.
    pub fn push(&mut self, index: usize, text: String)
        ensures
            text::strings(final(self).tokens@) == kept_tokens(
                with_token(text::strings(old(self).tokens@), index as int, text@),
            ),
            !is_status(with_token(text::strings(old(self).tokens@), index as int, text@)) ==> ({
                let all = together(
                    with_token(text::strings(old(self).tokens@), index as int, text@),
                );
                together(text::strings(final(self).tokens@)) == if all.len() > SHOWN_CHARS {
                    all.skip(all.len() - SHOWN_CHARS)
                } else {
                    all
                }
            }),
    {
        let ghost before = text::strings(self.tokens@);
        let ghost want = with_token(before, index as int, text@);
        if index < self.tokens.len() {
            self.tokens.set(index, text);
        } else {
            self.tokens.push(text);
        }
        assert(text::strings(self.tokens@) =~= want);
        proof {
            if !is_status(want) {
                the_end_of_the_text_is_kept(want);
                assert(together(want).skip(0) =~= together(want));
            }
        }
        let full = self.full_text();
        if !self.holds_status() && full.len() > SHOWN_CHARS {
            self.drop_front(full.len() - SHOWN_CHARS);
        }
    }

    /// Last 200 Unicode scalars of generated text (full string if a single status blob).
    pub fn to_string(&self) -> (r: String)
        ensures
            r@ == shown_text(text::strings(self.tokens@)),
    {
        let full = self.full_text();
        if self.holds_status() {
            return text::string_of(&full);
        }
        if full.len() > SHOWN_CHARS {
            let tail = text::part(&full, full.len() - SHOWN_CHARS, full.len());
            assert(tail@ =~= full@.skip(full@.len() - SHOWN_CHARS));
            return text::string_of(&tail);
        }
        text::string_of(&full)
    }

    pub fn is_empty(&self) -> (r: bool)
        ensures
            r == (self.tokens@.len() == 0),
    {
        self.tokens.len() == 0
    }
}

/// Where no single token holds several lines, at most the last 200 characters are
/// shown, and they are the end of the generated text.
pub proof fn the_end_of_the_text_is_shown(tokens: Seq<Seq<char>>)
    requires
        !is_status(tokens),
    ensures
        shown_text(tokens).len() <= SHOWN_CHARS,
        text::has_suffix(together(tokens), shown_text(tokens)),
{
    let full = together(tokens);
    let end = shown_text(tokens);
    assert(full.subrange(full.len() - end.len(), full.len() as int) =~= end);
}

/// Represents a single attention weight from one head at one query position
#[derive(Clone, Copy, Debug, PartialEq, Eq, Structural)]
pub struct AttentionWeight {
    pub layer: usize,
    pub head: usize,
    pub query_pos: usize,
    pub key_pos: usize,
    /// Normalized weight value [0.0, 1.0]
    pub weight: Single,
}

/// Aggregated activity for one head at one token position
#[derive(Clone, Copy, Debug, PartialEq, Eq, Structural)]
pub struct HeadActivity {
    pub layer: usize,
    pub head: usize,
    pub intensity: Single,
}

/// A column of head activities for one token position across all layers/heads
#[derive(Clone, Debug)]
pub struct TokenColumn {
    pub token_index: usize,
    pub activities: Vec<HeadActivity>,
}

/// Circular buffer that stores recent token columns for rendering
#[derive(Debug)]
pub struct TokenBuffer {
    pub capacity: usize,
    pub data: VecDeque<TokenColumn>,
}

impl TokenBuffer {
    pub fn new(capacity: usize) -> (r: TokenBuffer)
        ensures
            r.capacity == capacity,
            r.data@ == Seq::<TokenColumn>::empty(),
    {
        let data: VecDeque<TokenColumn> = VecDeque::new();
        assert(data@ =~= Seq::<TokenColumn>::empty());
        TokenBuffer { capacity, data }
    }

    /// Adds a column; the oldest one leaves where the buffer is full.
    pub fn push(&mut self, column: TokenColumn)
        ensures
            final(self).capacity == old(self).capacity,
            final(self).data@ == perf::ringed(
                old(self).data@,
                column,
                old(self).capacity as nat,
            ),
    {
        perf::push(&mut self.data, column, self.capacity);
    }

    pub fn iter(&self) -> (r: std::collections::vec_deque::Iter<'_, TokenColumn>)
        ensures
            r == self.data.iter(),
    {
        self.data.iter()
    }

    pub fn is_empty(&self) -> (r: bool)
        ensures
            r == (self.data@.len() == 0),
    {
        self.data.len() == 0
    }
}

/// A ring of at least one place never holds more than its places, and its last
/// value is the one put in last.
pub proof fn rings_are_bounded<T>(h: Seq<T>, v: T, cap: nat)
    requires
        h.len() <= cap,
        cap > 0,
    ensures
        perf::ringed(h, v, cap).len() <= cap,
        perf::ringed(h, v, cap).last() == v,
        h.len() < cap ==> perf::ringed(h, v, cap) == h.push(v),
        h.len() == cap ==> perf::ringed(h, v, cap) == h.drop_first().push(v),
{
}

/// `(l1, h1)` comes before `(l2, h2)`.
pub open spec fn before(l1: usize, h1: usize, l2: usize, h2: usize) -> bool {
    l1 < l2 || (l1 == l2 && h1 < h2)
}

/// The activities are in ascending order of layer and head, each head once.
pub open spec fn ascending(acts: Seq<HeadActivity>) -> bool {
    forall|i: int, j: int|
        0 <= i < j < acts.len() ==> before(
            acts[i].layer,
            acts[i].head,
            acts[j].layer,
            acts[j].head,
        )
}

/// The intensity of a head in a column.
pub open spec fn intensity_of(acts: Seq<HeadActivity>, layer: usize, head: usize) -> Option<Single>
    decreases acts.len(),
{
    if acts.len() == 0 {
        None
    } else if acts.last().layer == layer && acts.last().head == head {
        Some(acts.last().intensity)
    } else {
        intensity_of(acts.drop_last(), layer, head)
    }
}

/// Collects attention weights per query position and builds TokenColumns
#[derive(Debug)]
pub struct ActivityAggregator {
    /// query_pos -> the highest weight of each head
    pub pending: HashMap<usize, Vec<HeadActivity>>,
}

/// The weight of a head once another one has come in; it starts at zero.
pub open spec fn raised(had: Option<Single>, weight: Single) -> Single {
    let was = match had {
        Some(x) => x,
        None => Single { bits: 0 },
    };
    if weight.above(was) {
        weight
    } else {
        was
    }
}

/// A column once a weight has come in: that head's weight is raised, the others
/// stay, and the order is kept.
pub open spec fn raises(
    acts: Seq<HeadActivity>,
    layer: usize,
    head: usize,
    weight: Single,
    next: Seq<HeadActivity>,
) -> bool {
    &&& ascending(next)
    &&& next.len() > 0
    &&& intensity_of(next, layer, head) == Some(raised(intensity_of(acts, layer, head), weight))
    &&& forall|l: usize, h: usize|
        !(l == layer && h == head) ==> #[trigger] intensity_of(next, l, h) == intensity_of(
            acts,
            l,
            h,
        )
}

/// A column with one more weight: it raises its head's, or takes its place in the
/// order.
pub open spec fn with_weight(
    acts: Seq<HeadActivity>,
    layer: usize,
    head: usize,
    weight: Single,
) -> Seq<HeadActivity>
    decreases acts.len(),
{
    if acts.len() == 0 || before(acts.last().layer, acts.last().head, layer, head) {
        acts.push(HeadActivity { layer, head, intensity: raised(None, weight) })
    } else if acts.last().layer == layer && acts.last().head == head {
        acts.drop_last().push(
            HeadActivity { layer, head, intensity: raised(Some(acts.last().intensity), weight) },
        )
    } else {
        with_weight(acts.drop_last(), layer, head, weight).push(acts.last())
    }
}

/// A weight raises its own head's and no other, and keeps the order.
pub proof fn weights_raise_one_head(
    acts: Seq<HeadActivity>,
    layer: usize,
    head: usize,
    weight: Single,
)
    requires
        ascending(acts),
    ensures
        raises(acts, layer, head, weight, with_weight(acts, layer, head, weight)),
    decreases acts.len(),
{
    let next = with_weight(acts, layer, head, weight);
    if acts.len() == 0 || before(acts.last().layer, acts.last().head, layer, head) {
        let new = HeadActivity { layer, head, intensity: raised(None, weight) };
        lemma_absent_after(acts, layer, head);
        if acts.len() > 0 {
            assert(acts[acts.len() - 1] == acts.last());
        }
        lemma_inserted(acts, acts.len() as int, new);
        assert(next =~= acts.insert(acts.len() as int, new));
    } else if acts.last().layer == layer && acts.last().head == head {
        let x = raised(Some(acts.last().intensity), weight);
        lemma_replaced(acts, acts.len() - 1, x);
        assert(next =~= acts.update(
            acts.len() - 1,
            HeadActivity { intensity: x, ..acts[acts.len() - 1] },
        ));
    } else {
        let a0 = acts.drop_last();
        let last = acts.last();
        weights_raise_one_head(a0, layer, head, weight);
        let n0 = with_weight(a0, layer, head, weight);
        assert(next.drop_last() =~= n0);
        assert(next.last() == last);
        assert(before(layer, head, last.layer, last.head));
        lemma_absent_below(acts);
        assert(intensity_of(n0, last.layer, last.head) is None);
        assert forall|i: int, j: int| 0 <= i < j < next.len() implies before(
            next[i].layer,
            next[i].head,
            next[j].layer,
            next[j].head,
        ) by {
            if j < n0.len() {
                assert(before(n0[i].layer, n0[i].head, n0[j].layer, n0[j].head));
            } else {
                lemma_present(n0, i);
                let (l, h) = (n0[i].layer, n0[i].head);
                if !(l == layer && h == head) {
                    assert(intensity_of(a0, l, h) is Some);
                    let k = lemma_found(a0, l, h);
                    assert(before(acts[k].layer, acts[k].head, last.layer, last.head));
                }
            }
        }
        assert forall|l: usize, h: usize|
            !(l == layer && h == head) implies #[trigger] intensity_of(next, l, h)
            == intensity_of(acts, l, h) by {
            assert(intensity_of(n0, l, h) == intensity_of(a0, l, h));
        }
    }
}

proof fn lemma_present(acts: Seq<HeadActivity>, i: int)
    requires
        0 <= i < acts.len(),
    ensures
        intensity_of(acts, acts[i].layer, acts[i].head) is Some,
    decreases acts.len(),
{
    if i < acts.len() - 1 {
        lemma_present(acts.drop_last(), i);
    }
}

proof fn lemma_found(acts: Seq<HeadActivity>, layer: usize, head: usize) -> (k: int)
    requires
        intensity_of(acts, layer, head) is Some,
    ensures
        0 <= k < acts.len(),
        acts[k].layer == layer,
        acts[k].head == head,
    decreases acts.len(),
{
    if acts.last().layer == layer && acts.last().head == head {
        acts.len() - 1
    } else {
        lemma_found(acts.drop_last(), layer, head)
    }
}

/// Two columns in order with the same intensities are the same column.
pub proof fn intensities_decide_the_column(a: Seq<HeadActivity>, b: Seq<HeadActivity>)
    requires
        ascending(a),
        ascending(b),
        forall|l: usize, h: usize| #[trigger] intensity_of(a, l, h) == intensity_of(b, l, h),
    ensures
        a == b,
    decreases a.len() + b.len(),
{
    if a.len() == 0 && b.len() == 0 {
        assert(a =~= b);
    } else if a.len() == 0 {
        let y = b.last();
        assert(intensity_of(a, y.layer, y.head) is None);
    } else if b.len() == 0 {
        let x = a.last();
        assert(intensity_of(a, x.layer, x.head) is Some);
        assert(intensity_of(b, x.layer, x.head) is None);
    } else {
        let x = a.last();
        let y = b.last();
        if !(x.layer == y.layer && x.head == y.head) {
            if before(x.layer, x.head, y.layer, y.head) {
                lemma_absent_after(a, y.layer, y.head);
                assert(intensity_of(b, y.layer, y.head) is Some);
            } else {
                lemma_absent_after(b, x.layer, x.head);
                assert(intensity_of(a, x.layer, x.head) is Some);
            }
        }
        assert(intensity_of(a, x.layer, x.head) == Some(x.intensity));
        assert(intensity_of(b, y.layer, y.head) == Some(y.intensity));
        let a0 = a.drop_last();
        let b0 = b.drop_last();
        assert forall|l: usize, h: usize| #[trigger] intensity_of(a0, l, h) == intensity_of(
            b0,
            l,
            h,
        ) by {
            assert(intensity_of(a, l, h) == intensity_of(b, l, h));
            if l == x.layer && h == x.head {
                lemma_absent_below(a);
                lemma_absent_below(b);
            }
        }
        intensities_decide_the_column(a0, b0);
        assert(a =~= a0.push(x));
        assert(b =~= b0.push(y));
    }
}

/// A head behind the last one of a column is not in it.
proof fn lemma_absent_after(acts: Seq<HeadActivity>, layer: usize, head: usize)
    requires
        ascending(acts),
        acts.len() > 0 ==> before(acts.last().layer, acts.last().head, layer, head),
    ensures
        intensity_of(acts, layer, head) is None,
    decreases acts.len(),
{
    if acts.len() > 0 {
        let head_part = acts.drop_last();
        if head_part.len() > 0 {
            assert(before(
                acts[acts.len() - 2].layer,
                acts[acts.len() - 2].head,
                acts.last().layer,
                acts.last().head,
            ));
        }
        lemma_absent_after(head_part, layer, head);
    }
}

/// The last head of a column is not among the others.
proof fn lemma_absent_below(acts: Seq<HeadActivity>)
    requires
        ascending(acts),
        acts.len() > 0,
    ensures
        intensity_of(acts.drop_last(), acts.last().layer, acts.last().head) is None,
{
    let part = acts.drop_last();
    if part.len() > 0 {
        assert(before(
            acts[acts.len() - 2].layer,
            acts[acts.len() - 2].head,
            acts.last().layer,
            acts.last().head,
        ));
    }
    lemma_absent_after(part, acts.last().layer, acts.last().head);
}

impl Default for ActivityAggregator {
    fn default() -> (r: ActivityAggregator)
        ensures
            r.wf(),
            r.columns() == Map::<usize, Seq<HeadActivity>>::empty(),
    {
        let r = ActivityAggregator { pending: HashMap::new() };
        assert(r.columns() =~= Map::<usize, Seq<HeadActivity>>::empty());
        r
    }
}

/// Raises the weight of a head in a column.
fn raise(acts: &mut Vec<HeadActivity>, layer: usize, head: usize, weight: Single)
    requires
        ascending(old(acts)@),
    ensures
        final(acts)@ == with_weight(old(acts)@, layer, head, weight),
{
    let ghost start = acts@;
    proof {
        weights_raise_one_head(start, layer, head, weight);
    }
    let ghost goal = with_weight(start, layer, head, weight);
    // Weights mostly arrive in order, so the place is near the end.
    let mut i: usize = acts.len();
    while i > 0 && (layer < acts[i - 1].layer || (layer == acts[i - 1].layer && head < acts[i
        - 1].head))
        invariant
            i <= acts.len(),
            acts@ == start,
            ascending(start),
            forall|j: int|
                i <= j < start.len() ==> before(
                    layer,
                    head,
                    (#[trigger] start[j]).layer,
                    start[j].head,
                ),
        decreases i,
    {
        i -= 1;
    }
    if i > 0 && acts[i - 1].layer == layer && acts[i - 1].head == head {
        let was = acts[i - 1].intensity;
        let now = if weight.gt(was) {
            weight
        } else {
            was
        };
        acts.set(i - 1, HeadActivity { layer, head, intensity: now });
        proof {
            lemma_replaced(start, i - 1, now);
            lemma_same_raise(start, layer, head, weight, acts@, goal);
        }
    } else {
        let now = if weight.gt(Single::zero()) {
            weight
        } else {
            Single::zero()
        };
        let new = HeadActivity { layer, head, intensity: now };
        proof {
            if i > 0 {
                assert(before(start[i - 1].layer, start[i - 1].head, layer, head));
            }
            lemma_inserted(start, i as int, new);
        }
        acts.insert(i, new);
        proof {
            lemma_same_raise(start, layer, head, weight, acts@, goal);
        }
    }
}

proof fn lemma_same_raise(
    acts: Seq<HeadActivity>,
    layer: usize,
    head: usize,
    weight: Single,
    a: Seq<HeadActivity>,
    b: Seq<HeadActivity>,
)
    requires
        raises(acts, layer, head, weight, a),
        raises(acts, layer, head, weight, b),
    ensures
        a == b,
{
    assert forall|l: usize, h: usize| #[trigger] intensity_of(a, l, h) == intensity_of(b, l, h) by {
        if !(l == layer && h == head) {
            assert(intensity_of(a, l, h) == intensity_of(acts, l, h));
        }
    }
    intensities_decide_the_column(a, b);
}

/// The intensities once a head's own has been replaced.
proof fn lemma_replaced(acts: Seq<HeadActivity>, at: int, x: Single)
    requires
        ascending(acts),
        0 <= at < acts.len(),
    ensures
        ({
            let new = HeadActivity { intensity: x, ..acts[at] };
            let next = acts.update(at, new);
            &&& ascending(next)
            &&& intensity_of(next, new.layer, new.head) == Some(x)
            &&& intensity_of(acts, new.layer, new.head) == Some(acts[at].intensity)
            &&& forall|l: usize, h: usize|
                !(l == new.layer && h == new.head) ==> #[trigger] intensity_of(next, l, h)
                    == intensity_of(acts, l, h)
        }),
    decreases acts.len(),
{
    let new = HeadActivity { intensity: x, ..acts[at] };
    let next = acts.update(at, new);
    let a0 = acts.drop_last();
    assert forall|i: int, j: int| 0 <= i < j < next.len() implies before(
        next[i].layer,
        next[i].head,
        next[j].layer,
        next[j].head,
    ) by {
        assert(before(acts[i].layer, acts[i].head, acts[j].layer, acts[j].head));
    }
    if at == acts.len() - 1 {
        assert(next.drop_last() =~= a0);
    } else {
        lemma_replaced(a0, at, x);
        let n0 = a0.update(at, new);
        assert(next.drop_last() =~= n0);
        assert(before(
            acts[at].layer,
            acts[at].head,
            acts[acts.len() - 1].layer,
            acts[acts.len() - 1].head,
        ));
        assert forall|l: usize, h: usize|
            !(l == new.layer && h == new.head) implies #[trigger] intensity_of(next, l, h)
            == intensity_of(acts, l, h) by {
            assert(intensity_of(n0, l, h) == intensity_of(a0, l, h));
        }
    }
}

/// The intensities once a head has been put in its place.
proof fn lemma_inserted(acts: Seq<HeadActivity>, at: int, new: HeadActivity)
    requires
        ascending(acts),
        0 <= at <= acts.len(),
        at > 0 ==> before(acts[at - 1].layer, acts[at - 1].head, new.layer, new.head),
        forall|j: int|
            at <= j < acts.len() ==> before(
                new.layer,
                new.head,
                (#[trigger] acts[j]).layer,
                acts[j].head,
            ),
    ensures
        ({
            let next = acts.insert(at, new);
            &&& ascending(next)
            &&& intensity_of(next, new.layer, new.head) == Some(new.intensity)
            &&& intensity_of(acts, new.layer, new.head) is None
            &&& forall|l: usize, h: usize|
                !(l == new.layer && h == new.head) ==> #[trigger] intensity_of(next, l, h)
                    == intensity_of(acts, l, h)
        }),
    decreases acts.len(),
{
    let next = acts.insert(at, new);
    assert forall|i: int, j: int| 0 <= i < j < next.len() implies before(
        next[i].layer,
        next[i].head,
        next[j].layer,
        next[j].head,
    ) by {
        let oi = if i < at {
            i
        } else {
            i - 1
        };
        let oj = if j < at {
            j
        } else {
            j - 1
        };
        if i != at && j != at {
            assert(before(acts[oi].layer, acts[oi].head, acts[oj].layer, acts[oj].head));
        } else if j == at {
            if i < at - 1 {
                assert(before(
                    acts[i].layer,
                    acts[i].head,
                    acts[at - 1].layer,
                    acts[at - 1].head,
                ));
            }
        } else {
            assert(next[j] == acts[j - 1]);
        }
    }
    if at == acts.len() {
        assert(next.drop_last() =~= acts);
        lemma_absent_after(acts, new.layer, new.head);
    } else {
        let a0 = acts.drop_last();
        lemma_inserted(a0, at, new);
        let n0 = a0.insert(at, new);
        assert(next.drop_last() =~= n0);
        assert(next.last() == acts.last());
        assert(before(new.layer, new.head, acts[acts.len() - 1].layer, acts[acts.len() - 1].head));
        assert forall|l: usize, h: usize|
            !(l == new.layer && h == new.head) implies #[trigger] intensity_of(next, l, h)
            == intensity_of(acts, l, h) by {
            assert(intensity_of(n0, l, h) == intensity_of(a0, l, h));
        }
    }
}

/// What can happen to an aggregator.
pub enum Event {
    /// A weight comes in.
    Weight(AttentionWeight),
    /// A position is finalized.
    Taken(usize),
}

/// The column that waits at a position; one without heads where none does.
pub open spec fn column_at(
    columns: Map<usize, Seq<HeadActivity>>,
    pos: usize,
) -> Seq<HeadActivity> {
    if columns.contains_key(pos) {
        columns[pos]
    } else {
        Seq::empty()
    }
}

/// The columns that wait after an event.
pub open spec fn after(columns: Map<usize, Seq<HeadActivity>>, event: Event) -> Map<
    usize,
    Seq<HeadActivity>,
> {
    match event {
        Event::Weight(w) => columns.insert(
            w.query_pos,
            with_weight(column_at(columns, w.query_pos), w.layer, w.head, w.weight),
        ),
        Event::Taken(pos) => columns.remove(pos),
    }
}

impl ActivityAggregator {
    /// The columns that wait, by their query position.
    pub open spec fn columns(self) -> Map<usize, Seq<HeadActivity>> {
        self.pending@.map_values(|v: Vec<HeadActivity>| v@)
    }

    /// The activities waiting at a query position.
    pub open spec fn at(self, pos: usize) -> Option<Seq<HeadActivity>> {
        if self.columns().contains_key(pos) {
            Some(self.columns()[pos])
        } else {
            None
        }
    }

    /// Every column that waits is in order and not empty.
    pub open spec fn wf(self) -> bool {
        forall|pos: usize| #[trigger]
            self.columns().contains_key(pos) ==> ascending(self.columns()[pos])
                && self.columns()[pos].len() > 0
    }

    pub fn new(_num_layers: usize, _num_heads: usize) -> (r: ActivityAggregator)
        ensures
            r.wf(),
            r.columns() == Map::<usize, Seq<HeadActivity>>::empty(),
            forall|pos: usize| (#[trigger] r.at(pos)) is None,
    {
        ActivityAggregator::default()
    }

    /// Takes a weight in: the highest one of each head at each position counts.
    pub fn process(&mut self, weight: AttentionWeight)
        requires
            old(self).wf(),
        ensures
            final(self).wf(),
            final(self).columns() == after(old(self).columns(), Event::Weight(weight)),
            forall|pos: usize|
                pos != weight.query_pos ==> #[trigger] final(self).at(pos) == old(self).at(pos),
            final(self).at(weight.query_pos) matches Some(next) && raises(
                match old(self).at(weight.query_pos) {
                    Some(acts) => acts,
                    None => Seq::empty(),
                },
                weight.layer,
                weight.head,
                weight.weight,
                next,
            ),
    {
        broadcast use vstd::std_specs::hash::group_hash_axioms;

        let pos = weight.query_pos;
        let ghost start = self.columns();
        let mut acts: Vec<HeadActivity> = match self.pending.remove(&pos) {
            Some(acts) => acts,
            None => Vec::new(),
        };
        assert(acts@ =~= column_at(start, pos));
        raise(&mut acts, weight.layer, weight.head, weight.weight);
        proof {
            weights_raise_one_head(
                column_at(start, pos),
                weight.layer,
                weight.head,
                weight.weight,
            );
        }
        self.pending.insert(pos, acts);
        assert(self.columns() =~= after(start, Event::Weight(weight)));
    }

    /// Finalize a query position into a TokenColumn (removes it from pending)
    pub fn finalize(&mut self, query_pos: usize) -> (r: Option<TokenColumn>)
        requires
            old(self).wf(),
        ensures
            final(self).wf(),
            final(self).columns() == after(old(self).columns(), Event::Taken(query_pos)),
            r is Some <==> old(self).at(query_pos) is Some,
            r matches Some(c) ==> c.token_index == query_pos && old(self).at(query_pos) == Some(
                c.activities@,
            ) && ascending(c.activities@) && c.activities@.len() > 0,
            final(self).at(query_pos) is None,
            forall|pos: usize|
                pos != query_pos ==> #[trigger] final(self).at(pos) == old(self).at(pos),
    {
        broadcast use vstd::std_specs::hash::group_hash_axioms;

        let ghost start = self.columns();
        let taken = self.pending.remove(&query_pos);
        assert(self.columns() =~= start.remove(query_pos));
        match taken {
            None => None,
            Some(activities) => {
                assert(start.contains_key(query_pos));
                Some(TokenColumn { token_index: query_pos, activities })
            },
        }
    }
}

/// The columns that wait after a run of events.
pub open spec fn columns_after(run: Seq<Event>) -> Map<usize, Seq<HeadActivity>>
    decreases run.len(),
{
    if run.len() == 0 {
        Map::empty()
    } else {
        after(columns_after(run.drop_last()), run.last())
    }
}

/// The weights of a position that came in since it was last finalized.
pub open spec fn weights_since(run: Seq<Event>, pos: usize) -> Seq<AttentionWeight>
    decreases run.len(),
{
    if run.len() == 0 {
        Seq::empty()
    } else {
        let earlier = weights_since(run.drop_last(), pos);
        match run.last() {
            Event::Weight(w) => if w.query_pos == pos {
                earlier.push(w)
            } else {
                earlier
            },
            Event::Taken(p) => if p == pos {
                Seq::empty()
            } else {
                earlier
            },
        }
    }
}

pub open spec fn is_of(w: AttentionWeight, layer: usize, head: usize) -> bool {
    w.layer == layer && w.head == head
}

/// A number is the highest of a head's weights, or zero where none is above it.
pub open spec fn is_highest(
    ws: Seq<AttentionWeight>,
    layer: usize,
    head: usize,
    x: Single,
) -> bool {
    &&& x.bits == 0 || exists|i: int|
        0 <= i < ws.len() && is_of(#[trigger] ws[i], layer, head) && ws[i].weight == x
    &&& !x.nan() && !x.negative()
    &&& forall|i: int|
        0 <= i < ws.len() && is_of(#[trigger] ws[i], layer, head) ==> !ws[i].weight.above(x)
}

pub open spec fn has_head(ws: Seq<AttentionWeight>, layer: usize, head: usize) -> bool {
    exists|i: int| 0 <= i < ws.len() && is_of(#[trigger] ws[i], layer, head)
}

/// A column tells the heads of some weights, each with the highest of its own.
pub open spec fn tells(acts: Seq<HeadActivity>, ws: Seq<AttentionWeight>) -> bool {
    &&& ascending(acts)
    &&& forall|l: usize, h: usize|
        (#[trigger] intensity_of(acts, l, h)) is Some <==> has_head(ws, l, h)
    &&& forall|l: usize, h: usize|
        (#[trigger] intensity_of(acts, l, h)) matches Some(x) ==> is_highest(ws, l, h, x)
}

proof fn lemma_tells_more(acts: Seq<HeadActivity>, ws: Seq<AttentionWeight>, w: AttentionWeight)
    requires
        tells(acts, ws),
    ensures
        tells(with_weight(acts, w.layer, w.head, w.weight), ws.push(w)),
{
    let next = with_weight(acts, w.layer, w.head, w.weight);
    let more = ws.push(w);
    weights_raise_one_head(acts, w.layer, w.head, w.weight);
    assert forall|i: int| 0 <= i < ws.len() implies more[i] == #[trigger] ws[i] by {}
    assert(more[ws.len() as int] == w);
    assert forall|l: usize, h: usize|
        ((#[trigger] intensity_of(next, l, h)) is Some <==> has_head(more, l, h)) && (
        intensity_of(next, l, h) matches Some(x) ==> is_highest(more, l, h, x)) by {
        let had = intensity_of(acts, l, h);
        if has_head(ws, l, h) {
            let i = choose|i: int| 0 <= i < ws.len() && is_of(#[trigger] ws[i], l, h);
            assert(is_of(more[i], l, h));
        }
        if is_of(w, l, h) {
            assert(is_of(more[ws.len() as int], l, h));
            let x = raised(had, w.weight);
            assert(intensity_of(next, l, h) == Some(x));
            let was = match had {
                Some(y) => y,
                None => Single { bits: 0 },
            };
            assert(Single { bits: 0 }.value() == 0) by {
                assert(crate::float::magnitude_value(0, 0x80_0000) == 0);
            }
            assert(was.bits == 0 || is_highest(ws, l, h, was));
            lemma_not_negative(was);
            if was.bits != 0 {
                let i = choose|i: int|
                    0 <= i < ws.len() && is_of(#[trigger] ws[i], l, h) && ws[i].weight == was;
                assert(is_of(more[i], l, h) && more[i].weight == was);
            }
            if w.weight.above(was) {
                lemma_not_negative(x);
            }
            assert forall|i: int|
                0 <= i < more.len() && is_of(#[trigger] more[i], l, h) implies !more[i].weight.above(
                x,
            ) by {
                if i < ws.len() {
                    assert(is_of(ws[i], l, h));
                    assert(has_head(ws, l, h));
                }
            }
        } else {
            assert(intensity_of(next, l, h) == had);
            if has_head(more, l, h) {
                let i = choose|i: int| 0 <= i < more.len() && is_of(#[trigger] more[i], l, h);
                assert(i < ws.len());
                assert(is_of(ws[i], l, h));
            }
            if let Some(x) = had {
                if x.bits != 0 {
                    let i = choose|i: int|
                        0 <= i < ws.len() && is_of(#[trigger] ws[i], l, h) && ws[i].weight == x;
                    assert(is_of(more[i], l, h) && more[i].weight == x);
                }
                assert forall|i: int|
                    0 <= i < more.len() && is_of(
                        #[trigger] more[i],
                        l,
                        h,
                    ) implies !more[i].weight.above(x) by {
                    assert(is_of(ws[i], l, h));
                }
            }
        }
    }
}

/// A number without the sign bit is not below zero, and one with it not above.
proof fn lemma_not_negative(x: Single)
    ensures
        !x.negative() ==> x.value() >= 0,
        x.negative() ==> x.value() <= 0,
{
    let m = x.magnitude();
    assert(crate::float::magnitude_value(0, 0x80_0000) == 0);
    if m > 0 {
        crate::float::magnitudes_are_ordered(0, m, 0x80_0000);
    }
}

/// A column holds the highest weight of each head: after any run of weights and
/// finalized positions, a position waits exactly if weights of it came in since it
/// was last finalized; its column then has one entry for each head among them, in
/// order, each with the highest of its weights or zero.
pub proof fn columns_hold_the_highest_weights(run: Seq<Event>, pos: usize)
    ensures
        ({
            let columns = columns_after(run);
            let ws = weights_since(run, pos);
            &&& columns.contains_key(pos) <==> ws.len() > 0
            &&& tells(column_at(columns, pos), ws)
            &&& columns.contains_key(pos) ==> columns[pos].len() > 0
        }),
    decreases run.len(),
{
    if run.len() == 0 {
    } else {
        let earlier = run.drop_last();
        columns_hold_the_highest_weights(earlier, pos);
        match run.last() {
            Event::Weight(w) => {
                if w.query_pos == pos {
                    let acts = column_at(columns_after(earlier), pos);
                    lemma_tells_more(acts, weights_since(earlier, pos), w);
                    weights_raise_one_head(acts, w.layer, w.head, w.weight);
                }
            },
            Event::Taken(_) => {},
        }
    }
}

/// The order in which weights came does not matter: where the same weights of a
/// position came in since it was last finalized, the same column waits.
pub proof fn the_order_of_weights_does_not_matter(a: Seq<Event>, b: Seq<Event>, pos: usize)
    requires
        forall|w: AttentionWeight|
            weights_since(a, pos).contains(w) <==> #[trigger] weights_since(b, pos).contains(w),
    ensures
        columns_after(a).contains_key(pos) <==> columns_after(b).contains_key(pos),
        column_at(columns_after(a), pos) == column_at(columns_after(b), pos),
{
    let (wa, wb) = (weights_since(a, pos), weights_since(b, pos));
    let (ca, cb) = (column_at(columns_after(a), pos), column_at(columns_after(b), pos));
    columns_hold_the_highest_weights(a, pos);
    columns_hold_the_highest_weights(b, pos);
    if wa.len() > 0 {
        assert(wa.contains(wa[0]));
        assert(wb.contains(wa[0]));
    }
    if wb.len() > 0 {
        assert(wb.contains(wb[0]));
        assert(wa.contains(wb[0]));
    }
    assert forall|l: usize, h: usize| #[trigger] intensity_of(ca, l, h) == intensity_of(cb, l, h) by {
        lemma_same_heads(wa, wb, l, h);
        lemma_same_heads(wb, wa, l, h);
        if has_head(wa, l, h) {
            let x = intensity_of(ca, l, h)->0;
            let y = intensity_of(cb, l, h)->0;
            lemma_one_highest(wa, wb, l, h, x, y);
            lemma_one_highest(wb, wa, l, h, y, x);
            if x.bits != y.bits {
                let (mx, my) = (x.magnitude(), y.magnitude());
                if mx < my {
                    crate::float::magnitudes_are_ordered(mx, my, 0x80_0000);
                } else {
                    crate::float::magnitudes_are_ordered(my, mx, 0x80_0000);
                }
            }
        }
    }
    intensities_decide_the_column(ca, cb);
}

proof fn lemma_same_heads(a: Seq<AttentionWeight>, b: Seq<AttentionWeight>, l: usize, h: usize)
    requires
        forall|w: AttentionWeight| a.contains(w) ==> #[trigger] b.contains(w),
    ensures
        has_head(a, l, h) ==> has_head(b, l, h),
{
    if has_head(a, l, h) {
        let i = choose|i: int| 0 <= i < a.len() && is_of(#[trigger] a[i], l, h);
        assert(a.contains(a[i]));
        assert(b.contains(a[i]));
        let j = choose|j: int| 0 <= j < b.len() && b[j] == a[i];
        assert(is_of(b[j], l, h));
    }
}

proof fn lemma_one_highest(
    a: Seq<AttentionWeight>,
    b: Seq<AttentionWeight>,
    l: usize,
    h: usize,
    x: Single,
    y: Single,
)
    requires
        forall|w: AttentionWeight| a.contains(w) ==> #[trigger] b.contains(w),
        is_highest(a, l, h, x),
        is_highest(b, l, h, y),
    ensures
        x.value() <= y.value(),
{
    lemma_not_negative(x);
    lemma_not_negative(y);
    if x.bits == 0 {
        assert(crate::float::magnitude_value(0, 0x80_0000) == 0);
    } else {
        let i = choose|i: int|
            0 <= i < a.len() && is_of(#[trigger] a[i], l, h) && a[i].weight == x;
        assert(a.contains(a[i]));
        assert(b.contains(a[i]));
        let j = choose|j: int| 0 <= j < b.len() && b[j] == a[i];
        assert(is_of(b[j], l, h));
    }
}

} // verus!
