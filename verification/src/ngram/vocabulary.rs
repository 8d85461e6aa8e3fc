//! The distinct tokens of a corpus, their counts, and the vocabulary of those that are frequent.

use crate::ngram::fx::{id_of, ids_in, no_ids, set_id, TokenIds};
use crate::ngram::tokens::{compare_tokens, token_laws, token_order, TokenKey, TokenView};
use crate::order::{compare_u64, int_rank, same_elements, sort_by, Rank, Ranking};
use crate::text::{decimal, decimal_of};
use crate::views::{views, views_push};
use vstd::prelude::*;

verus! {

/// The distinct tokens in the order in which they came, and how often each came.
#[verifier::ext_equal]
pub struct InternerView {
    pub tokens: Seq<TokenView>,
    pub counts: Seq<nat>,
}

/// The tokens after one more came.
pub open spec fn interned(known: InternerView, token: TokenView) -> InternerView {
    if known.tokens.contains(token) {
        let place = known.tokens.index_of(token);
        InternerView {
            tokens: known.tokens,
            counts: known.counts.update(place, known.counts[place] + 1),
        }
    } else {
        InternerView { tokens: known.tokens.push(token), counts: known.counts.push(1) }
    }
}

/// The tokens after a sequence came.
pub open spec fn all_interned(known: InternerView, sequence: Seq<TokenView>) -> InternerView
    decreases sequence.len(),
{
    if sequence.len() == 0 {
        known
    } else {
        interned(all_interned(known, sequence.drop_last()), sequence.last())
    }
}

/// Tokens that came keep their places.
pub proof fn interning_keeps_places(known: InternerView, sequence: Seq<TokenView>)
    ensures
        all_interned(known, sequence).tokens.len() >= known.tokens.len(),
        forall|i: int|
            0 <= i < known.tokens.len() ==> #[trigger] all_interned(known, sequence).tokens[i]
                == known.tokens[i],
    decreases sequence.len(),
{
    if sequence.len() > 0 {
        interning_keeps_places(known, sequence.drop_last());
    }
}

/// Fewer tokens take no more room.
proof fn interning_grows(known: InternerView, sequence: Seq<TokenView>, count: int)
    requires
        0 <= count <= sequence.len(),
    ensures
        all_interned(known, sequence.take(count)).tokens.len() <= all_interned(
            known,
            sequence,
        ).tokens.len(),
        forall|i: int|
            0 <= i < all_interned(known, sequence.take(count)).tokens.len()
                ==> #[trigger] all_interned(known, sequence).tokens[i] == all_interned(
                known,
                sequence.take(count),
            ).tokens[i],
    decreases sequence.len(),
{
    if count < sequence.len() {
        assert(sequence.drop_last().take(count) =~= sequence.take(count));
        interning_grows(known, sequence.drop_last(), count);
    } else {
        assert(sequence.take(count) =~= sequence);
    }
}

/// Gives numbers to tokens and counts them.
pub struct Interner {
    ids: TokenIds,
    tokens: Vec<TokenKey>,
    counts: Vec<u64>,
    total: u64,
}

impl View for Interner {
    type V = InternerView;

    closed spec fn view(&self) -> InternerView {
        InternerView {
            tokens: views(self.tokens@),
            counts: Seq::new(self.counts@.len(), |i: int| self.counts@[i] as nat),
        }
    }
}

impl Interner {
    /// The number of tokens that came.
    pub closed spec fn spec_total(&self) -> u64 {
        self.total
    }

    /// Each token has its place as its number, and no count exceeds the total.
    pub closed spec fn well_formed(&self) -> bool {
        &&& self.tokens@.len() == self.counts@.len()
        &&& self.tokens@.len() <= 0x1_0000_0000
        &&& forall|i: int|
            0 <= i < self.tokens@.len() ==> ids_in(self.ids).contains_key(
                (#[trigger] self.tokens@[i])@,
            ) && ids_in(self.ids)[self.tokens@[i]@] == i
        &&& forall|token: TokenView| #[trigger]
            ids_in(self.ids).contains_key(token) ==> {
                &&& ids_in(self.ids)[token] < self.tokens@.len()
                &&& self.tokens@[ids_in(self.ids)[token] as int]@ == token
            }
        &&& forall|i: int| 0 <= i < self.counts@.len() ==> #[trigger] self.counts@[i] <= self.total
    }

    /// The tokens are distinct.
    pub proof fn tokens_are_distinct(&self)
        requires
            self.well_formed(),
        ensures
            self@.tokens.no_duplicates(),
            self@.tokens.len() == self@.counts.len(),
    {
        assert forall|i: int, j: int| 0 <= i < j < self@.tokens.len() implies self@.tokens[i]
            != self@.tokens[j] by {
            assert(self@.tokens[i] == self.tokens@[i]@);
            assert(self@.tokens[j] == self.tokens@[j]@);
        }
    }

    /// No tokens.
    pub fn new() -> (interner: Interner)
        ensures
            interner.well_formed(),
            interner@ == (InternerView { tokens: Seq::empty(), counts: Seq::empty() }),
            interner.spec_total() == 0,
    {
        let interner = Interner { ids: no_ids(), tokens: Vec::new(), counts: Vec::new(), total: 0 };
        assert(interner@ =~= (InternerView { tokens: Seq::empty(), counts: Seq::empty() }));
        interner
    }

    /// The number of distinct tokens.
    pub fn len(&self) -> (length: usize)
        ensures
            length == self@.tokens.len(),
    {
        self.tokens.len()
    }

    /// The number of tokens that came.
    pub fn total(&self) -> (total: u64)
        ensures
            total == self.spec_total(),
    {
        self.total
    }

    /// Whether one more token can be counted.
    pub fn has_room(&self, token: &TokenKey) -> (room: bool)
        requires
            self.well_formed(),
        ensures
            room == (self.spec_total() < u64::MAX && interned(self@, token@).tokens.len()
                <= 0x1_0000_0000),
    {
        if self.total == u64::MAX {
            return false;
        }
        let known = id_of(&self.ids, token).is_some();
        proof {
            if known {
                let place = ids_in(self.ids)[token@] as int;
                assert(self@.tokens[place] == self.tokens@[place]@);
                assert(self@.tokens.contains(token@));
            } else {
                assert forall|i: int| 0 <= i < self@.tokens.len() implies self@.tokens[i]
                    != token@ by {
                    assert(self@.tokens[i] == self.tokens@[i]@);
                }
            }
        }
        known || (self.tokens.len() as u64) < 0x1_0000_0000
    }

    /// Counts a token, and gives its number.
    pub fn intern(&mut self, token: TokenKey) -> (id: u32)
        requires
            old(self).well_formed(),
            old(self).spec_total() < u64::MAX,
            interned(old(self)@, token@).tokens.len() <= 0x1_0000_0000,
        ensures
            final(self).well_formed(),
            final(self)@ == interned(old(self)@, token@),
            final(self).spec_total() == old(self).spec_total() + 1,
            id < final(self)@.tokens.len(),
            final(self)@.tokens[id as int] == token@,
    {
        let ghost before = *self;
        proof {
            before.tokens_are_distinct();
        }
        let found = id_of(&self.ids, &token);
        self.total += 1;
        if let Some(id) = found {
            let place = id as usize;
            self.counts[place] += 1;
            proof {
                assert(before@.tokens[place as int] == before.tokens@[place as int]@);
                assert(before@.tokens.contains(token@));
                assert(before@.tokens.index_of(token@) == place);
                assert(self@ =~= interned(before@, token@));
            }
            return id;
        }
        assert(!before@.tokens.contains(token@)) by {
            assert forall|i: int| 0 <= i < before@.tokens.len() implies before@.tokens[i]
                != token@ by {
                assert(before@.tokens[i] == before.tokens@[i]@);
            }
        }
        let id = self.tokens.len() as u32;
        set_id(&mut self.ids, &token, id);
        let ghost key = token@;
        proof {
            views_push(self.tokens@, token);
        }
        self.tokens.push(token);
        self.counts.push(1);
        proof {
            assert(self@ =~= interned(before@, key));
            assert forall|i: int| 0 <= i < self.tokens@.len() implies ids_in(
                self.ids,
            ).contains_key((#[trigger] self.tokens@[i])@) && ids_in(self.ids)[self.tokens@[i]@]
                == i by {
                if i < before.tokens@.len() {
                    assert(self.tokens@[i] == before.tokens@[i]);
                    assert(before@.tokens[i] == before.tokens@[i]@);
                    assert(before@.tokens.contains(before@.tokens[i]));
                }
            }
        }
        id
    }

    /// The distinct tokens and their counts.
    pub fn into_parts(self) -> (parts: (Vec<TokenKey>, Vec<u64>))
        requires
            self.well_formed(),
        ensures
            views(parts.0@) == self@.tokens,
            parts.0@.len() == parts.1@.len(),
            forall|i: int|
                0 <= i < parts.1@.len() ==> #[trigger] parts.1@[i] == self@.counts[i],
    {
        (self.tokens, self.counts)
    }
}

/// What was counted in a corpus.
#[derive(Clone, Copy, Debug)]
pub struct CorpusStats {
    pub documents: u64,
    pub sentences: u64,
    pub valid_tokens: u64,
}

/// The numbers of tokens, with a space between them.
pub open spec fn id_text(ids: Seq<int>) -> Seq<char>
    decreases ids.len(),
{
    if ids.len() == 0 {
        Seq::empty()
    } else if ids.len() == 1 {
        decimal_of(ids[0] as nat)
    } else {
        id_text(ids.drop_last()).push(' ') + decimal_of(ids.last() as nat)
    }
}

/// The places of the tokens of a sequence among distinct tokens.
pub open spec fn places_in(tokens: Seq<TokenView>, sequence: Seq<TokenView>) -> Seq<int> {
    Seq::new(sequence.len(), |i: int| tokens.index_of(sequence[i]))
}

/// The numbers as integers.
pub open spec fn id_views(ids: Seq<u32>) -> Seq<int> {
    Seq::new(ids.len(), |i: int| ids[i] as int)
}

fn write_ids(ids: &[u32], output: &mut String)
    ensures
        final(output)@ == old(output)@ + id_text(id_views(ids@)).push('\n'),
{
    let ghost all = id_views(ids@);
    let ghost before = output@;
    let mut i: usize = 0;
    assert(before + id_text(all.take(0)) =~= before);
    while i < ids.len()
        invariant
            all == id_views(ids@),
            i <= ids@.len(),
            output@ == before + id_text(all.take(i as int)),
        decreases ids@.len() - i,
    {
        proof {
            assert(all.take(i + 1).drop_last() =~= all.take(i as int));
        }
        if i > 0 {
            output.push(' ');
        }
        output.append(decimal(ids[i] as u128).as_str());
        assert(output@ =~= before + id_text(all.take(i + 1)));
        i += 1;
    }
    assert(all.take(i as int) =~= all);
    output.push('\n');
    assert(output@ =~= before + id_text(all).push('\n'));
}

fn intern_all(sequence: Vec<TokenKey>, interner: &mut Interner) -> (result: Option<Vec<u32>>)
    requires
        old(interner).well_formed(),
    ensures
        match result {
            Some(ids) => {
                &&& final(interner).well_formed()
                &&& final(interner)@ == all_interned(old(interner)@, views(sequence@))
                &&& final(interner).spec_total() == old(interner).spec_total() + sequence@.len()
                &&& id_views(ids@) == places_in(final(interner)@.tokens, views(sequence@))
            },
            None => old(interner).spec_total() + sequence@.len() > u64::MAX || all_interned(
                old(interner)@,
                views(sequence@),
            ).tokens.len() > 0x1_0000_0000,
        },
{
    let ghost all = views(sequence@);
    let ghost known = interner@;
    let ghost end = all_interned(known, all).tokens;
    let ghost total = interner.spec_total();
    let mut ids: Vec<u32> = Vec::new();
    assert(all.take(0) =~= Seq::empty());
    for token in it: sequence
        invariant
            views(it.seq()) == all,
            end == all_interned(known, all).tokens,
            known == old(interner)@,
            total == old(interner).spec_total(),
            all == views(sequence@),
            interner.well_formed(),
            interner@ == all_interned(known, all.take(it.index())),
            interner.spec_total() == total + it.index(),
            ids@.len() == it.index(),
            forall|i: int|
                0 <= i < it.index() ==> #[trigger] ids@[i] < end.len() && end[ids@[i] as int]
                    == all[i],
    {
        let ghost done = it.index();
        proof {
            assert(all.take(done + 1).drop_last() =~= all.take(done));
            assert(all.take(done + 1).last() == token@);
            interning_grows(known, all, done + 1);
        }
        if !interner.has_room(&token) {
            return None;
        }
        let id = interner.intern(token);
        ids.push(id);
    }
    proof {
        assert(all.take(all.len() as int) =~= all);
        interner.tokens_are_distinct();
        assert forall|i: int| 0 <= i < ids@.len() implies ids@[i] as int == end.index_of(
            all[i],
        ) by {
            assert(end[ids@[i] as int] == all[i]);
            assert(end.contains(all[i]));
        }
        assert(id_views(ids@) =~= places_in(end, all));
    }
    Some(ids)
}

/// Counts the tokens of a sequence, and writes their numbers on a line. Nothing where a counter
/// has no room for them.
pub fn write_sequence(
    sequence: Vec<TokenKey>,
    interner: &mut Interner,
    stats: &mut CorpusStats,
    output: &mut String,
) -> (result: Option<()>)
    requires
        old(interner).well_formed(),
    ensures
        match result {
            Some(_) => {
                &&& final(interner).well_formed()
                &&& final(interner)@ == all_interned(old(interner)@, views(sequence@))
                &&& final(interner).spec_total() == old(interner).spec_total() + sequence@.len()
                &&& final(stats).documents == old(stats).documents
                &&& final(stats).sentences == old(stats).sentences + 1
                &&& final(stats).valid_tokens == old(stats).valid_tokens + sequence@.len()
                &&& final(output)@ == old(output)@ + id_text(
                    places_in(final(interner)@.tokens, views(sequence@)),
                ).push('\n')
            },
            None => {
                ||| old(stats).sentences == u64::MAX
                ||| old(stats).valid_tokens + sequence@.len() > u64::MAX
                ||| old(interner).spec_total() + sequence@.len() > u64::MAX
                ||| all_interned(old(interner)@, views(sequence@)).tokens.len() > 0x1_0000_0000
            },
        },
{
    if stats.sentences == u64::MAX || u64::MAX - stats.valid_tokens < sequence.len() as u64 {
        return None;
    }
    stats.sentences += 1;
    stats.valid_tokens += sequence.len() as u64;
    match intern_all(sequence, interner) {
        Some(ids) => {
            write_ids(&ids, output);
            Some(())
        },
        None => None,
    }
}

/// What stands for a token that is not in the vocabulary.
pub const MISSING_VOCAB_ID: u32 = u32::MAX;

/// A token that is frequent enough, with its number and its count.
pub struct Retained {
    pub raw_id: usize,
    pub token: TokenKey,
    pub count: u64,
}

/// The order by token, then by number.
pub struct ByToken;

impl Ranking<Retained> for ByToken {
    open spec fn rank(left: Retained, right: Retained) -> Rank {
        token_order(left.token@, right.token@).then_by(
            int_rank(left.raw_id as int, right.raw_id as int),
        )
    }

    proof fn rank_flip(left: Retained, right: Retained) {
        token_laws(left.token@, right.token@, right.token@);
    }

    proof fn rank_transitive(first: Retained, second: Retained, third: Retained) {
        token_laws(first.token@, second.token@, third.token@);
        token_laws(second.token@, third.token@, first.token@);
        token_laws(first.token@, third.token@, second.token@);
        token_laws(third.token@, first.token@, second.token@);
        token_laws(third.token@, second.token@, first.token@);
    }

    fn compare(left: &Retained, right: &Retained) -> (rank: Rank) {
        let token = compare_tokens(&left.token, &right.token);
        if token != Rank::Same {
            return token;
        }
        compare_u64(left.raw_id as u64, right.raw_id as u64)
    }
}

/// The frequent tokens, sorted, with their counts; and for each token its place among them.
pub struct Vocabulary {
    pub tokens: Vec<TokenKey>,
    pub raw_to_vocab: Vec<u32>,
    pub counts: Vec<u64>,
}

/// A token is in the vocabulary, at this place, with its count.
pub open spec fn stands_in(
    vocabulary: Vocabulary,
    raw_tokens: Seq<TokenView>,
    raw_counts: Seq<u64>,
    raw_id: int,
) -> bool {
    let place = vocabulary.raw_to_vocab@[raw_id];
    &&& place != MISSING_VOCAB_ID
    &&& place < vocabulary.tokens@.len()
    &&& vocabulary.tokens@[place as int]@ == raw_tokens[raw_id]
    &&& vocabulary.counts@[place as int] == raw_counts[raw_id]
}

/// The number of tokens with at least `min_count`, among the first `length`.
pub open spec fn frequent_count(raw_counts: Seq<u64>, min_count: u64, length: int) -> int
    decreases length,
{
    if length <= 0 {
        0
    } else {
        frequent_count(raw_counts, min_count, length - 1) + if raw_counts[length - 1]
            >= min_count {
            1int
        } else {
            0
        }
    }
}

/// A token has this place in the vocabulary.
pub open spec fn has_origin(raw_to_vocab: Seq<u32>, place: int) -> bool {
    exists|raw_id: int| 0 <= raw_id < raw_to_vocab.len() && #[trigger] raw_to_vocab[raw_id] == place
}

/// The vocabulary holds the tokens with at least `min_count`, sorted, and no others.
pub open spec fn is_vocabulary(
    vocabulary: Vocabulary,
    raw_tokens: Seq<TokenView>,
    raw_counts: Seq<u64>,
    min_count: u64,
) -> bool {
    &&& vocabulary.tokens@.len() == vocabulary.counts@.len()
    &&& vocabulary.tokens@.len() == frequent_count(
        raw_counts,
        min_count,
        raw_tokens.len() as int,
    )
    &&& vocabulary.raw_to_vocab@.len() == raw_tokens.len()
    &&& forall|i: int, j: int|
        0 <= i < j < vocabulary.tokens@.len() ==> token_order(
            (#[trigger] vocabulary.tokens@[i])@,
            (#[trigger] vocabulary.tokens@[j])@,
        ) != Rank::After
    &&& forall|raw_id: int|
        0 <= raw_id < raw_tokens.len() ==> if raw_counts[raw_id] >= min_count {
            stands_in(vocabulary, raw_tokens, raw_counts, raw_id)
        } else {
            #[trigger] vocabulary.raw_to_vocab@[raw_id] == MISSING_VOCAB_ID
        }
    &&& forall|place: int|
        0 <= place < vocabulary.tokens@.len() ==> #[trigger] has_origin(
            vocabulary.raw_to_vocab@,
            place,
        )
}

/// The token of this number is in the list, with its contents.
spec fn describes(
    retained: Retained,
    raw_tokens: Seq<TokenView>,
    raw_counts: Seq<u64>,
    min_count: u64,
) -> bool {
    &&& retained.raw_id < raw_tokens.len()
    &&& retained.token@ == raw_tokens[retained.raw_id as int]
    &&& retained.count == raw_counts[retained.raw_id as int]
    &&& retained.count >= min_count
}

/// A number is one of the list.
spec fn lists(list: Seq<Retained>, raw_id: int) -> bool {
    exists|i: int| 0 <= i < list.len() && (#[trigger] list[i]).raw_id == raw_id
}

fn retain_frequent(raw_tokens: &[TokenKey], raw_counts: &[u64], min_count: u64) -> (list: Vec<
    Retained,
>)
    requires
        raw_tokens@.len() <= raw_counts@.len(),
    ensures
        list@.len() == frequent_count(raw_counts@, min_count, raw_tokens@.len() as int),
        forall|i: int|
            0 <= i < list@.len() ==> describes(
                #[trigger] list@[i],
                views(raw_tokens@),
                raw_counts@,
                min_count,
            ),
        forall|i: int, j: int|
            0 <= i < j < list@.len() ==> (#[trigger] list@[i]).raw_id < (#[trigger] list@[j]).raw_id,
        forall|raw_id: int|
            0 <= raw_id < raw_tokens@.len() && #[trigger] raw_counts@[raw_id] >= min_count
                ==> lists(list@, raw_id),
{
    let mut list: Vec<Retained> = Vec::new();
    let mut raw_id: usize = 0;
    while raw_id < raw_tokens.len()
        invariant
            raw_tokens@.len() <= raw_counts@.len(),
            raw_id <= raw_tokens@.len(),
            list@.len() == frequent_count(raw_counts@, min_count, raw_id as int),
            forall|i: int|
                0 <= i < list@.len() ==> describes(
                    #[trigger] list@[i],
                    views(raw_tokens@),
                    raw_counts@,
                    min_count,
                ) && list@[i].raw_id < raw_id,
            forall|i: int, j: int|
                0 <= i < j < list@.len() ==> (#[trigger] list@[i]).raw_id < (
                #[trigger] list@[j]).raw_id,
            forall|other: int|
                0 <= other < raw_id && #[trigger] raw_counts@[other] >= min_count ==> lists(
                    list@,
                    other,
                ),
        decreases raw_tokens@.len() - raw_id,
    {
        let count = raw_counts[raw_id];
        if count >= min_count {
            let ghost before = list@;
            let token = raw_tokens[raw_id].duplicate();
            list.push(Retained { raw_id, token, count });
            proof {
                assert forall|other: int|
                    0 <= other < raw_id + 1 && #[trigger] raw_counts@[other]
                        >= min_count implies lists(list@, other) by {
                    if other < raw_id {
                        let i = choose|i: int|
                            0 <= i < before.len() && (#[trigger] before[i]).raw_id == other;
                        assert(list@[i].raw_id == other);
                    } else {
                        assert(list@[before.len() as int].raw_id == other);
                    }
                }
            }
        }
        raw_id += 1;
    }
    list
}

/// Sorting the list keeps what it says.
proof fn sorting_keeps_list(
    list: Seq<Retained>,
    sorted: Seq<Retained>,
    raw_tokens: Seq<TokenView>,
    raw_counts: Seq<u64>,
    min_count: u64,
)
    requires
        sorted.to_multiset() == list.to_multiset(),
        forall|i: int|
            0 <= i < list.len() ==> describes(
                #[trigger] list[i],
                raw_tokens,
                raw_counts,
                min_count,
            ),
        forall|i: int, j: int|
            0 <= i < j < list.len() ==> (#[trigger] list[i]).raw_id < (#[trigger] list[j]).raw_id,
    ensures
        sorted.len() == list.len(),
        forall|i: int|
            0 <= i < sorted.len() ==> describes(
                #[trigger] sorted[i],
                raw_tokens,
                raw_counts,
                min_count,
            ),
        forall|i: int, j: int|
            0 <= i < j < sorted.len() ==> (#[trigger] sorted[i]).raw_id != (
            #[trigger] sorted[j]).raw_id,
        forall|raw_id: int| #[trigger] lists(list, raw_id) ==> lists(sorted, raw_id),
{
    same_elements(sorted, list);
    assert forall|i: int| 0 <= i < sorted.len() implies describes(
        #[trigger] sorted[i],
        raw_tokens,
        raw_counts,
        min_count,
    ) by {
        assert(sorted.contains(sorted[i]));
        assert(list.contains(sorted[i]));
        let p = list.index_of(sorted[i]);
        assert(list[p] == sorted[i]);
    }
    assert(list.no_duplicates());
    list.lemma_multiset_has_no_duplicates();
    assert(sorted.no_duplicates()) by {
        sorted.lemma_multiset_has_no_duplicates_conv();
    }
    assert forall|i: int, j: int| 0 <= i < j < sorted.len() implies (#[trigger] sorted[i]).raw_id
        != (#[trigger] sorted[j]).raw_id by {
        assert(sorted.contains(sorted[i]) && sorted.contains(sorted[j]));
        let p = list.index_of(sorted[i]);
        let q = list.index_of(sorted[j]);
        assert(list[p] == sorted[i] && list[q] == sorted[j]);
        assert(sorted[i] != sorted[j]);
        if p < q {
            assert(list[p].raw_id < list[q].raw_id);
        } else if q < p {
            assert(list[q].raw_id < list[p].raw_id);
        }
    }
    assert forall|raw_id: int| #[trigger] lists(list, raw_id) implies lists(sorted, raw_id) by {
        let i = choose|i: int| 0 <= i < list.len() && (#[trigger] list[i]).raw_id == raw_id;
        assert(list.contains(list[i]));
        let p = sorted.index_of(list[i]);
        assert(sorted[p].raw_id == raw_id);
    }
}

/// The token at `place` of the list has its place in the vocabulary.
spec fn placed(
    list: Seq<Retained>,
    tokens: Seq<TokenView>,
    counts: Seq<u64>,
    raw_to_vocab: Seq<u32>,
    place: int,
) -> bool {
    &&& tokens[place] == list[place].token@
    &&& counts[place] == list[place].count
    &&& raw_to_vocab[list[place].raw_id as int] == place
}

/// Makes the vocabulary of the tokens with at least `min_count`. Nothing where there are too
/// many for numbers of 32 bits.
pub fn make_vocabulary(raw_tokens: &[TokenKey], raw_counts: &[u64], min_count: u64) -> (result:
    Option<Vocabulary>)
    requires
        raw_tokens@.len() <= raw_counts@.len(),
    ensures
        match result {
            Some(vocabulary) => is_vocabulary(
                vocabulary,
                views(raw_tokens@),
                raw_counts@,
                min_count,
            ) && vocabulary.tokens@.len() <= u32::MAX,
            None => frequent_count(raw_counts@, min_count, raw_tokens@.len() as int) > u32::MAX,
        },
{
    let ghost tokens_given = views(raw_tokens@);
    let list = retain_frequent(raw_tokens, raw_counts, min_count);
    let ghost unsorted = list@;
    let sorted = sort_by::<Retained, ByToken>(list);
    let ghost all = sorted@;
    proof {
        sorting_keeps_list(unsorted, all, tokens_given, raw_counts@, min_count);
    }
    if sorted.len() as u64 > 0xFFFF_FFFF {
        return None;
    }
    let mut raw_to_vocab: Vec<u32> = Vec::new();
    let mut i: usize = 0;
    while i < raw_tokens.len()
        invariant
            i <= raw_tokens@.len(),
            raw_to_vocab@.len() == i,
            forall|j: int| 0 <= j < i ==> #[trigger] raw_to_vocab@[j] == MISSING_VOCAB_ID,
        decreases raw_tokens@.len() - i,
    {
        raw_to_vocab.push(MISSING_VOCAB_ID);
        i += 1;
    }
    let mut tokens: Vec<TokenKey> = Vec::new();
    let mut counts: Vec<u64> = Vec::new();
    let mut place: u32 = 0;
    for retained in it: sorted
        invariant
            it.seq() == all,
            all.len() <= 0xFFFF_FFFF,
            place == it.index(),
            forall|k: int|
                0 <= k < all.len() ==> describes(
                    #[trigger] all[k],
                    tokens_given,
                    raw_counts@,
                    min_count,
                ),
            forall|k: int, l: int|
                0 <= k < l < all.len() ==> (#[trigger] all[k]).raw_id != (#[trigger] all[l]).raw_id,
            raw_to_vocab@.len() == tokens_given.len(),
            tokens@.len() == it.index(),
            counts@.len() == it.index(),
            forall|k: int|
                0 <= k < it.index() ==> #[trigger] placed(
                    all,
                    views(tokens@),
                    counts@,
                    raw_to_vocab@,
                    k,
                ),
            forall|raw_id: int|
                0 <= raw_id < raw_to_vocab@.len() ==> #[trigger] raw_to_vocab@[raw_id]
                    == MISSING_VOCAB_ID || lists(all.take(it.index()), raw_id),
    {
        let ghost done = it.index();
        let ghost before = raw_to_vocab@;
        let ghost known = tokens@;
        let ghost known_counts = counts@;
        assert(all[done] == retained);
        assert(describes(all[done], tokens_given, raw_counts@, min_count));
        raw_to_vocab[retained.raw_id] = place;
        tokens.push(retained.token);
        counts.push(retained.count);
        proof {
            let next = all.take(done + 1);
            views_push(known, retained.token);
            assert forall|k: int| 0 <= k < done + 1 implies #[trigger] placed(
                all,
                views(tokens@),
                counts@,
                raw_to_vocab@,
                k,
            ) by {
                if k < done {
                    assert(placed(all, views(known), known_counts, before, k));
                    assert(all[k].raw_id != all[done].raw_id);
                }
            }
            assert forall|raw_id: int| 0 <= raw_id < raw_to_vocab@.len() implies (
            #[trigger] raw_to_vocab@[raw_id]) == MISSING_VOCAB_ID || lists(next, raw_id) by {
                if raw_id == all[done].raw_id {
                    assert(next[done].raw_id == raw_id);
                } else if before[raw_id] != MISSING_VOCAB_ID {
                    assert(lists(all.take(done), raw_id));
                    let k = choose|k: int|
                        0 <= k < done && (#[trigger] all.take(done)[k]).raw_id == raw_id;
                    assert(next[k].raw_id == raw_id);
                }
            }
        }
        place += 1;
    }
    let vocabulary = Vocabulary { tokens, raw_to_vocab, counts };
    proof {
        let found = vocabulary.tokens@;
        assert forall|k: int| 0 <= k < found.len() implies (#[trigger] found[k])@ == all[k].token@
            && vocabulary.counts@[k] == all[k].count
            && vocabulary.raw_to_vocab@[all[k].raw_id as int] == k by {
            assert(placed(
                all,
                views(found),
                vocabulary.counts@,
                vocabulary.raw_to_vocab@,
                k,
            ));
            assert(views(found)[k] == found[k]@);
        }
        assert forall|k: int, l: int| 0 <= k < l < found.len() implies token_order(
            (#[trigger] found[k])@,
            (#[trigger] found[l])@,
        ) != Rank::After by {
            assert(ByToken::rank(all[k], all[l]) != Rank::After);
        }
        assert forall|raw_id: int| 0 <= raw_id < tokens_given.len() implies if raw_counts@[raw_id]
            >= min_count {
            stands_in(vocabulary, tokens_given, raw_counts@, raw_id)
        } else {
            #[trigger] vocabulary.raw_to_vocab@[raw_id] == MISSING_VOCAB_ID
        } by {
            if raw_counts@[raw_id] >= min_count {
                assert(lists(unsorted, raw_id));
                assert(lists(all, raw_id));
                let k = choose|k: int| 0 <= k < all.len() && (#[trigger] all[k]).raw_id == raw_id;
                assert(found[k]@ == all[k].token@);
            } else if vocabulary.raw_to_vocab@[raw_id] != MISSING_VOCAB_ID {
                assert(all.take(all.len() as int) =~= all);
                let k = choose|k: int| 0 <= k < all.len() && (#[trigger] all[k]).raw_id == raw_id;
                assert(describes(all[k], tokens_given, raw_counts@, min_count));
            }
        }
        assert forall|k: int| 0 <= k < found.len() implies #[trigger] has_origin(
            vocabulary.raw_to_vocab@,
            k,
        ) by {
            assert(found[k]@ == all[k].token@);
            assert(describes(all[k], tokens_given, raw_counts@, min_count));
            assert(vocabulary.raw_to_vocab@[all[k].raw_id as int] == k);
        }
    }
    Some(vocabulary)
}

} // verus!
