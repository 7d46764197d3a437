//! Caches of parsed texts: most recently used first, bounded in entries and bytes.
use vstd::prelude::*;
use std::collections::VecDeque;
use crate::syntax_cache::text_key;
use crate::text::{byte_len, text_bytes};

verus! {

pub const MARKDOWN_PARSE_CACHE_CAP: usize = 128;
pub const MARKDOWN_PARSE_CACHE_BYTES: usize = 16 * 1024 * 1024;

/// What a text is looked up by before it is compared itself.
#[derive(Clone, Copy, Debug, PartialEq, Eq, Structural)]
pub struct MarkdownParseCacheKey {
    pub content_len: usize,
    pub content_hash: u64,
    pub file_icon_options_hash: u64,
}

/// A text and what it was parsed to.
#[derive(Debug)]
pub struct ParsedMarkdown<N> {
    pub source: String,
    pub nodes: N,
}

/// One cached value with the options it was made with and the bytes it keeps.
#[derive(Debug)]
pub struct ParseCacheEntry<K, V> {
    pub key: K,
    pub options: u64,
    pub value: V,
    pub retained_bytes: usize,
}

/// A cache of parsed texts.
#[derive(Debug)]
pub struct ParseCache<K, V> {
    pub entries: VecDeque<ParseCacheEntry<K, V>>,
    pub retained_bytes: usize,
}

/// What a cache holds, most recently used first, and the bytes it counts for that.
pub struct CacheState<K, V> {
    pub entries: Seq<ParseCacheEntry<K, V>>,
    pub bytes: usize,
}

impl<K, V> View for ParseCache<K, V> {
    type V = CacheState<K, V>;

    open spec fn view(&self) -> CacheState<K, V> {
        CacheState { entries: self.entries@, bytes: self.retained_bytes }
    }
}

/// More entries than a cache may hold, or more bytes, those of so many places counted in.
pub open spec fn over_budget<K, V>(s: CacheState<K, V>, places: usize) -> bool {
    s.entries.len() > MARKDOWN_PARSE_CACHE_CAP || s.bytes + places * vstd::layout::size_of::<
        ParseCacheEntry<K, V>,
    >() > MARKDOWN_PARSE_CACHE_BYTES
}

/// What is left once entries have gone from the back, each only while the cache is over its
/// budget.
pub open spec fn fitting<K, V>(s: CacheState<K, V>, places: usize) -> CacheState<K, V>
    decreases s.entries.len(),
{
    if s.entries.len() > 0 && over_budget(s, places) {
        fitting(
            CacheState {
                entries: s.entries.drop_last(),
                bytes: s.bytes.saturating_sub(s.entries.last().retained_bytes),
            },
            places,
        )
    } else {
        s
    }
}

/// An entry put in front.
pub open spec fn pushed<K, V>(s: CacheState<K, V>, entry: ParseCacheEntry<K, V>) -> CacheState<
    K,
    V,
> {
    CacheState {
        entries: seq![entry] + s.entries,
        bytes: s.bytes.saturating_add(entry.retained_bytes),
    }
}

/// The entry at `pos` moved to the front.
pub open spec fn fronted<K, V>(s: CacheState<K, V>, pos: int) -> CacheState<K, V> {
    CacheState { entries: moved_to_front(s.entries, pos), ..s }
}

/// The entry at `pos` with so many bytes.
pub open spec fn resized<K, V>(s: CacheState<K, V>, pos: int, bytes: usize) -> CacheState<K, V> {
    CacheState {
        entries: s.entries.update(
            pos,
            ParseCacheEntry { retained_bytes: bytes, ..s.entries[pos] },
        ),
        bytes: s.bytes.saturating_sub(s.entries[pos].retained_bytes).saturating_add(bytes),
    }
}

/// `after` is what fits of `before`, for some number of places that can hold its entries.
/// How many places there are is up to the allocator.
pub open spec fn evicted<K, V>(before: CacheState<K, V>, after: CacheState<K, V>) -> bool {
    exists|places: usize| places >= before.entries.len() && after == #[trigger] fitting(before, places)
}

/// Bytes that the entries keep.
pub open spec fn entry_bytes<K, V>(entries: Seq<ParseCacheEntry<K, V>>) -> int
    decreases entries.len(),
{
    if entries.len() == 0 {
        0
    } else {
        entry_bytes(entries.drop_last()) + entries.last().retained_bytes
    }
}

proof fn lemma_entry_bytes_front<K, V>(
    entry: ParseCacheEntry<K, V>,
    entries: Seq<ParseCacheEntry<K, V>>,
)
    ensures
        entry_bytes(seq![entry] + entries) == entry.retained_bytes + entry_bytes(entries),
    decreases entries.len(),
{
    let all = seq![entry] + entries;
    if entries.len() > 0 {
        lemma_entry_bytes_front(entry, entries.drop_last());
        assert(all.drop_last() =~= seq![entry] + entries.drop_last());
    } else {
        assert(entry_bytes(all.drop_last()) == 0);
        assert(entry_bytes(entries) == 0);
    }
}

proof fn lemma_entry_bytes_remove<K, V>(entries: Seq<ParseCacheEntry<K, V>>, i: int)
    requires
        0 <= i < entries.len(),
    ensures
        entry_bytes(entries) == entry_bytes(entries.remove(i)) + entries[i].retained_bytes,
    decreases entries.len(),
{
    if i == entries.len() - 1 {
        assert(entries.remove(i) =~= entries.drop_last());
    } else {
        lemma_entry_bytes_remove(entries.drop_last(), i);
        assert(entries.remove(i).drop_last() =~= entries.drop_last().remove(i));
    }
}

proof fn lemma_entry_bytes_nonnegative<K, V>(entries: Seq<ParseCacheEntry<K, V>>)
    ensures
        entry_bytes(entries) >= 0,
    decreases entries.len(),
{
    if entries.len() > 0 {
        lemma_entry_bytes_nonnegative(entries.drop_last());
    }
}

/// `VecDeque::capacity`: at least as many places as there are entries; how many more
/// is up to the allocator.
#[verifier::external_body]
fn deque_capacity<T>(deque: &VecDeque<T>) -> (capacity: usize)
    ensures
        capacity >= deque@.len(),
{
    deque.capacity()
}

/// The entry at `pos` moved to the front.
pub open spec fn moved_to_front<T>(entries: Seq<T>, pos: int) -> Seq<T> {
    seq![entries[pos]] + entries.remove(pos)
}

proof fn lemma_fitting<K, V>(s: CacheState<K, V>, places: usize)
    requires
        s.bytes <= entry_bytes(s.entries),
    ensures
        ({
            let left = fitting(s, places);
            &&& left.entries.len() <= s.entries.len()
            &&& left.entries == s.entries.take(left.entries.len() as int)
            &&& left.bytes <= entry_bytes(left.entries)
            &&& s.bytes == entry_bytes(s.entries) ==> left.bytes == entry_bytes(left.entries)
            &&& left.entries.len() <= MARKDOWN_PARSE_CACHE_CAP
            &&& left.bytes <= MARKDOWN_PARSE_CACHE_BYTES
        }),
    decreases s.entries.len(),
{
    let size = vstd::layout::size_of::<ParseCacheEntry<K, V>>();
    assert(places * size >= 0) by (nonlinear_arith)
        requires
            places >= 0,
            size >= 0,
    ;
    if s.entries.len() > 0 && over_budget(s, places) {
        let next = CacheState {
            entries: s.entries.drop_last(),
            bytes: s.bytes.saturating_sub(s.entries.last().retained_bytes),
        };
        lemma_entry_bytes_nonnegative(next.entries);
        lemma_fitting(next, places);
        let n = fitting(s, places).entries.len() as int;
        assert(next.entries.take(n) =~= s.entries.take(n));
    } else {
        assert(s.entries.take(s.entries.len() as int) =~= s.entries);
    }
}

/// Entries go from the back of a cache and only as long as it is over its budget: what is
/// left are its newest entries, within the bounds, and one more would be over them.
pub proof fn newest_entries_stay<K, V>(s: CacheState<K, V>, places: usize)
    requires
        s.bytes <= entry_bytes(s.entries),
    ensures
        ({
            let n = fitting(s, places).entries.len() as int;
            &&& n <= s.entries.len()
            &&& n <= MARKDOWN_PARSE_CACHE_CAP
            &&& fitting(s, places).entries == s.entries.take(n)
            &&& fitting(s, places).bytes <= MARKDOWN_PARSE_CACHE_BYTES
            &&& s.bytes == entry_bytes(s.entries) && n < s.entries.len() ==> n + 1
                > MARKDOWN_PARSE_CACHE_CAP || entry_bytes(s.entries.take(n + 1)) + places
                * vstd::layout::size_of::<ParseCacheEntry<K, V>>() > MARKDOWN_PARSE_CACHE_BYTES
        }),
    decreases s.entries.len(),
{
    lemma_fitting(s, places);
    if s.entries.len() > 0 && over_budget(s, places) {
        let next = CacheState {
            entries: s.entries.drop_last(),
            bytes: s.bytes.saturating_sub(s.entries.last().retained_bytes),
        };
        lemma_entry_bytes_nonnegative(next.entries);
        newest_entries_stay(next, places);
        let n = fitting(s, places).entries.len() as int;
        if n == next.entries.len() {
            assert(s.entries.take(n + 1) =~= s.entries);
        } else {
            assert(next.entries.take(n + 1) =~= s.entries.take(n + 1));
        }
    }
}

/// An entry that fits into a cache on its own stays at the front once it is put there.
pub proof fn fitting_entry_stays<K, V>(
    s: CacheState<K, V>,
    entry: ParseCacheEntry<K, V>,
    places: usize,
)
    requires
        s.bytes <= entry_bytes(s.entries),
        entry.retained_bytes + places * vstd::layout::size_of::<ParseCacheEntry<K, V>>()
            <= MARKDOWN_PARSE_CACHE_BYTES,
    ensures
        ({
            let left = fitting(pushed(s, entry), places);
            left.entries.len() > 0 && left.entries[0] == entry
        }),
{
    lemma_entry_bytes_front(entry, s.entries);
    lemma_front_stays(pushed(s, entry), places);
}

proof fn lemma_front_stays<K, V>(s: CacheState<K, V>, places: usize)
    requires
        s.entries.len() > 0,
        s.bytes <= entry_bytes(s.entries),
        s.entries[0].retained_bytes + places * vstd::layout::size_of::<ParseCacheEntry<K, V>>()
            <= MARKDOWN_PARSE_CACHE_BYTES,
    ensures
        fitting(s, places).entries.len() > 0,
        fitting(s, places).entries[0] == s.entries[0],
    decreases s.entries.len(),
{
    if over_budget(s, places) {
        let next = CacheState {
            entries: s.entries.drop_last(),
            bytes: s.bytes.saturating_sub(s.entries.last().retained_bytes),
        };
        lemma_entry_bytes_nonnegative(next.entries);
        if s.entries.len() == 1 {
            assert(entry_bytes(next.entries) == 0);
        }
        lemma_front_stays(next, places);
    }
}

impl<K, V> ParseCache<K, V> {
    /// The cache is within its bounds, and counts no more bytes than its entries keep.
    pub open spec fn wf(&self) -> bool {
        &&& self.retained_bytes <= entry_bytes(self.entries@)
        &&& self.entries@.len() <= MARKDOWN_PARSE_CACHE_CAP
        &&& self.retained_bytes <= MARKDOWN_PARSE_CACHE_BYTES
    }

    /// The cache counts the bytes that its entries keep. It does so as long as no sum of
    /// bytes is too large to be counted.
    pub open spec fn exact(&self) -> bool {
        self.retained_bytes == entry_bytes(self.entries@)
    }

    /// A cache of nothing.
    pub fn new() -> (cache: Self)
        ensures
            cache.wf(),
            cache.exact(),
            cache.entries@.len() == 0,
    {
        ParseCache { entries: VecDeque::new(), retained_bytes: 0 }
    }

    /// Bytes that the entries and so many places keep.
    pub fn measured_retained_bytes(&self, places: usize) -> (bytes: usize)
        ensures
            bytes == crate::retained::capped(
                self.retained_bytes + places * vstd::layout::size_of::<ParseCacheEntry<K, V>>(),
            ),
    {
        let size = core::mem::size_of::<ParseCacheEntry<K, V>>();
        proof {
            assert(places * size >= 0) by (nonlinear_arith)
                requires
                    places >= 0,
                    size >= 0,
            ;
        }
        let overhead = match places.checked_mul(size) {
            Some(overhead) => overhead,
            None => usize::MAX,
        };
        self.retained_bytes.saturating_add(overhead)
    }

    /// Drops entries from the back until the cache is within bounds, where it has so many
    /// places for entries.
    pub fn evict_with_places(&mut self, places: usize)
        requires
            old(self).retained_bytes <= entry_bytes(old(self).entries@),
        ensures
            final(self)@ == fitting(old(self)@, places),
            final(self).wf(),
            old(self).exact() ==> final(self).exact(),
    {
        let ghost before = self@;
        proof {
            lemma_fitting(before, places);
        }
        while self.entries.len() > MARKDOWN_PARSE_CACHE_CAP || self.measured_retained_bytes(places)
            > MARKDOWN_PARSE_CACHE_BYTES
            invariant_except_break
                fitting(self@, places) == fitting(before, places),
            ensures
                self@ == fitting(before, places),
            decreases self.entries.len(),
        {
            let ghost now = self.entries@;
            match self.entries.pop_back() {
                Some(entry) => {
                    proof {
                        assert(self.entries@ =~= now.drop_last());
                    }
                    self.retained_bytes = self.retained_bytes.saturating_sub(entry.retained_bytes);
                },
                None => {
                    break ;
                },
            }
        }
    }

    /// Drops entries from the back until the cache is within bounds.
    pub fn evict_to_budget(&mut self)
        requires
            old(self).retained_bytes <= entry_bytes(old(self).entries@),
        ensures
            evicted(old(self)@, final(self)@),
            final(self).wf(),
            old(self).exact() ==> final(self).exact(),
    {
        let places = deque_capacity(&self.entries);
        self.evict_with_places(places);
    }

    /// Puts an entry in front, and drops entries from the back until the cache is
    /// within bounds.
    pub fn push_front(&mut self, entry: ParseCacheEntry<K, V>)
        requires
            old(self).wf(),
        ensures
            evicted(pushed(old(self)@, entry), final(self)@),
            final(self).wf(),
            old(self).exact() && old(self).retained_bytes + entry.retained_bytes <= usize::MAX
                ==> final(self).exact(),
    {
        let ghost before = self.entries@;
        self.retained_bytes = self.retained_bytes.saturating_add(entry.retained_bytes);
        self.entries.push_front(entry);
        proof {
            assert(self.entries@ =~= seq![entry] + before);
            lemma_entry_bytes_front(entry, before);
            lemma_entry_bytes_nonnegative(before);
        }
        self.evict_to_budget();
    }

    /// Moves the entry at `pos` to the front.
    pub fn touch(&mut self, pos: usize)
        requires
            old(self).wf(),
            pos < old(self).entries@.len(),
        ensures
            final(self).wf(),
            final(self)@ == fronted(old(self)@, pos as int),
            old(self).exact() ==> final(self).exact(),
    {
        let ghost before = self.entries@;
        if let Some(entry) = self.entries.remove(pos) {
            self.entries.push_front(entry);
            proof {
                lemma_entry_bytes_remove(before, pos as int);
                lemma_entry_bytes_front(entry, before.remove(pos as int));
                assert(self.entries@ =~= moved_to_front(before, pos as int));
            }
        }
    }

    /// Drops everything.
    pub fn clear(&mut self)
        ensures
            final(self).wf(),
            final(self).exact(),
            final(self).entries@.len() == 0,
    {
        self.entries = VecDeque::new();
        self.retained_bytes = 0;
    }
}

/// The first entry that holds the parse of `source` with these options.
pub open spec fn parsed_position<N>(
    entries: Seq<ParseCacheEntry<MarkdownParseCacheKey, ParsedMarkdown<N>>>,
    key: MarkdownParseCacheKey,
    options: u64,
    source: Seq<char>,
    i: int,
) -> Option<int>
    decreases entries.len() - i,
{
    if i >= entries.len() {
        None
    } else if entries[i].key == key && entries[i].options == options && entries[i].value.source@
        == source {
        Some(i)
    } else {
        parsed_position(entries, key, options, source, i + 1)
    }
}

impl<N> ParseCache<MarkdownParseCacheKey, ParsedMarkdown<N>> {
    /// Finds the parse of `source` with these options, and moves it to the front.
    pub fn find_parsed(
        &mut self,
        key: MarkdownParseCacheKey,
        options: u64,
        source: &String,
    ) -> (found: bool)
        requires
            old(self).wf(),
        ensures
            final(self).wf(),
            old(self).exact() ==> final(self).exact(),
            ({
                let pos = parsed_position(old(self).entries@, key, options, source@, 0);
                &&& found == (pos is Some)
                &&& final(self)@ == (match pos {
                    Some(pos) => fronted(old(self)@, pos),
                    None => old(self)@,
                })
                &&& found ==> final(self).entries@.len() > 0
                &&& found ==> final(self).entries@[0].value.source@ == source@
                &&& found ==> final(self).entries@[0].options == options
            }),
    {
        let mut i: usize = 0;
        while i < self.entries.len()
            invariant
                *self == *old(self),
                self.wf(),
                i <= self.entries@.len(),
                parsed_position(self.entries@, key, options, source@, 0) == parsed_position(
                    self.entries@,
                    key,
                    options,
                    source@,
                    i as int,
                ),
            decreases self.entries.len() - i,
        {
            let entry = &self.entries[i];
            if entry.key == key && entry.options == options && entry.value.source == *source {
                self.touch(i);
                return true;
            }
            i += 1;
        }
        false
    }
}

/// Bytes that an allocation keeps for those who share it.
pub open spec fn header_bytes() -> int {
    2 * (vstd::layout::size_of::<usize>() as int)
}

/// Bytes that an allocation keeps for those who share it.
pub fn arc_header_bytes() -> (n: usize)
    ensures
        n == header_bytes(),
{
    proof {
        broadcast use vstd::layout::layout_of_primitives;

    }
    2 * core::mem::size_of::<usize>()
}

/// Bytes that an allocation keeps for those who share it within a thread.
pub fn rc_header_bytes() -> (n: usize)
    ensures
        n == header_bytes(),
{
    arc_header_bytes()
}

/// Bytes of what a retained text was parsed to, shared in a cell of `cell_bytes` bytes around
/// `bare_bytes`, which keeps so many itself.
pub fn retained_parsed_allocation_bytes(
    cell_bytes: usize,
    bare_bytes: usize,
    retained_bytes: usize,
) -> (n: usize)
    ensures
        n == crate::retained::capped(
            header_bytes() + cell_bytes.saturating_sub(bare_bytes) + retained_bytes,
        ),
{
    rc_header_bytes().saturating_add(cell_bytes.saturating_sub(bare_bytes)).saturating_add(
        retained_bytes,
    )
}

/// Bytes of shared nodes, which keep so many themselves.
pub fn markdown_arc_retained_bytes(nodes_bytes: usize) -> (n: usize)
    ensures
        n == crate::retained::capped(header_bytes() + nodes_bytes),
{
    arc_header_bytes().saturating_add(nodes_bytes)
}

/// Bytes of a text and of what it was parsed to, both shared.
pub open spec fn parsed_bytes(source: Seq<char>, nodes_bytes: usize) -> int {
    text_bytes(source) + header_bytes() + header_bytes() + nodes_bytes
}

/// An entry for a text that was not cached: what `parse` makes of it, with the bytes that
/// this, the text and the options keep.
pub open spec fn is_new_entry<N: Clone, P: Fn(&str) -> N, B: Fn(&N) -> usize>(
    entry: ParseCacheEntry<MarkdownParseCacheKey, ParsedMarkdown<N>>,
    key: MarkdownParseCacheKey,
    options: u64,
    options_bytes: usize,
    content: &str,
    parse: P,
    bytes: B,
) -> bool {
    &&& call_ensures(parse, (content,), entry.value.nodes)
    &&& entry.key == key
    &&& entry.options == options
    &&& entry.value.source@ == content@
    &&& exists|nodes_bytes: usize| #[trigger]
        call_ensures(bytes, (&entry.value.nodes,), nodes_bytes) && entry.retained_bytes
            == crate::retained::capped(options_bytes + parsed_bytes(content@, nodes_bytes))
}

/// What looking a text up gives and leaves: the entry that has it, moved to the front, or a
/// new one in front, and of that what fits.
pub open spec fn is_lookup<N: Clone, P: Fn(&str) -> N, B: Fn(&N) -> usize>(
    before: CacheState<MarkdownParseCacheKey, ParsedMarkdown<N>>,
    key: MarkdownParseCacheKey,
    options: u64,
    options_bytes: usize,
    content: &str,
    parse: P,
    bytes: B,
    after: CacheState<MarkdownParseCacheKey, ParsedMarkdown<N>>,
    r: N,
) -> bool {
    match parsed_position(before.entries, key, options, content@, 0) {
        Some(pos) => after == fronted(before, pos) && cloned::<N>(
            before.entries[pos].value.nodes,
            r,
        ),
        None => exists|entry: ParseCacheEntry<MarkdownParseCacheKey, ParsedMarkdown<N>>|
            {
                &&& #[trigger] is_new_entry(
                    entry,
                    key,
                    options,
                    options_bytes,
                    content,
                    parse,
                    bytes,
                )
                &&& evicted(pushed(before, entry), after)
                &&& cloned::<N>(entry.value.nodes, r)
            },
    }
}

/// A text that fits into the cache is found when it is looked up again: its entry is in
/// front, whatever else went.
pub proof fn parsed_text_is_found_again<N: Clone>(
    before: CacheState<MarkdownParseCacheKey, ParsedMarkdown<N>>,
    entry: ParseCacheEntry<MarkdownParseCacheKey, ParsedMarkdown<N>>,
    places: usize,
)
    requires
        before.bytes <= entry_bytes(before.entries),
        entry.retained_bytes + places * vstd::layout::size_of::<
            ParseCacheEntry<MarkdownParseCacheKey, ParsedMarkdown<N>>,
        >() <= MARKDOWN_PARSE_CACHE_BYTES,
    ensures
        parsed_position(
            fitting(pushed(before, entry), places).entries,
            entry.key,
            entry.options,
            entry.value.source@,
            0,
        ) == Some(0int),
{
    fitting_entry_stays(before, entry, places);
}

impl<N: Clone> ParseCache<MarkdownParseCacheKey, ParsedMarkdown<N>> {
    /// What a text is parsed to, from the cache where that has it. `bytes` says how many
    /// bytes the nodes keep, and the options keep `options_bytes`.
    pub fn parse_markdown_cached<P: Fn(&str) -> N, B: Fn(&N) -> usize>(
        &mut self,
        content: &str,
        options: u64,
        file_icon_options_hash: u64,
        options_bytes: usize,
        parse: &P,
        bytes: &B,
    ) -> (r: N)
        requires
            old(self).wf(),
            call_requires(*parse, (content,)),
            forall|nodes: &N| #[trigger] call_requires(*bytes, (nodes,)),
        ensures
            final(self).wf(),
            exists|key: MarkdownParseCacheKey|
                {
                    &&& #[trigger] is_lookup(
                        old(self)@,
                        key,
                        options,
                        options_bytes,
                        content,
                        *parse,
                        *bytes,
                        final(self)@,
                        r,
                    )
                    &&& key.content_len == text_bytes(content@)
                    &&& key.file_icon_options_hash == file_icon_options_hash
                },
    {
        let ghost before = self@;
        let key = MarkdownParseCacheKey {
            content_len: byte_len(content),
            content_hash: text_key(content),
            file_icon_options_hash,
        };
        let source = String::from_str(content);
        if self.find_parsed(key, options, &source) {
            let r = self.entries[0].value.nodes.clone();
            proof {
                let pos = parsed_position(before.entries, key, options, content@, 0)->0;
                lemma_parsed_position(before.entries, key, options, content@, 0);
                assert(self.entries@[0] == before.entries[pos]);
                assert(is_lookup(
                    before,
                    key,
                    options,
                    options_bytes,
                    content,
                    *parse,
                    *bytes,
                    self@,
                    r,
                ));
            }
            return r;
        }
        let nodes = parse(content);
        let r = nodes.clone();
        let nodes_bytes = bytes(&nodes);
        let header = arc_header_bytes();
        let weight = byte_len(content).saturating_add(header).saturating_add(
            markdown_arc_retained_bytes(nodes_bytes),
        );
        let entry = ParseCacheEntry {
            key,
            options,
            value: ParsedMarkdown { source, nodes },
            retained_bytes: options_bytes.saturating_add(weight),
        };
        let ghost new = entry;
        self.push_front(entry);
        proof {
            assert(call_ensures(*bytes, (&new.value.nodes,), nodes_bytes));
            assert(is_new_entry(new, key, options, options_bytes, content, *parse, *bytes));
            assert(is_lookup(
                before,
                key,
                options,
                options_bytes,
                content,
                *parse,
                *bytes,
                self@,
                r,
            ));
        }
        r
    }
}

proof fn lemma_parsed_position<N>(
    entries: Seq<ParseCacheEntry<MarkdownParseCacheKey, ParsedMarkdown<N>>>,
    key: MarkdownParseCacheKey,
    options: u64,
    source: Seq<char>,
    i: int,
)
    requires
        0 <= i,
    ensures
        parsed_position(entries, key, options, source, i) is Some ==> i <= parsed_position(
            entries,
            key,
            options,
            source,
            i,
        )->0 < entries.len(),
    decreases entries.len() - i,
{
    if i < entries.len() {
        lemma_parsed_position(entries, key, options, source, i + 1);
    }
}

/// The first entry of a content with these options.
pub open spec fn content_position<V>(
    entries: Seq<ParseCacheEntry<u64, V>>,
    content: u64,
    options: u64,
    i: int,
) -> Option<int>
    decreases entries.len() - i,
{
    if i >= entries.len() {
        None
    } else if entries[i].key == content && entries[i].options == options {
        Some(i)
    } else {
        content_position(entries, content, options, i + 1)
    }
}

impl<V> ParseCache<u64, V> {
    fn position(&self, content: u64, options: u64) -> (pos: Option<usize>)
        ensures
            match pos {
                Some(pos) => pos < self.entries@.len() && content_position(
                    self.entries@,
                    content,
                    options,
                    0,
                ) == Some(pos as int),
                None => content_position(self.entries@, content, options, 0) is None,
            },
    {
        let mut i: usize = 0;
        while i < self.entries.len()
            invariant
                i <= self.entries@.len(),
                content_position(self.entries@, content, options, 0) == content_position(
                    self.entries@,
                    content,
                    options,
                    i as int,
                ),
            decreases self.entries.len() - i,
        {
            let entry = &self.entries[i];
            if entry.key == content && entry.options == options {
                return Some(i);
            }
            i += 1;
        }
        None
    }

    /// Finds the entry of a content with these options, and moves it to the front.
    pub fn find_content(&mut self, content: u64, options: u64) -> (found: bool)
        requires
            old(self).wf(),
        ensures
            final(self).wf(),
            ({
                let pos = content_position(old(self).entries@, content, options, 0);
                &&& found == (pos is Some)
                &&& final(self)@ == (match pos {
                    Some(pos) => fronted(old(self)@, pos),
                    None => old(self)@,
                })
            }),
    {
        match self.position(content, options) {
            Some(pos) => {
                self.touch(pos);
                true
            },
            None => false,
        }
    }

    /// Puts the entry of a content with these options in front, with `fresh` in a new one
    /// where there is none yet. Entries may go behind it, and it may go itself.
    pub fn parse_retained_markdown_cached(
        &mut self,
        content: u64,
        options: u64,
        options_bytes: usize,
        fresh: V,
        fresh_bytes: usize,
    ) -> (found: bool)
        requires
            old(self).wf(),
        ensures
            final(self).wf(),
            ({
                let pos = content_position(old(self).entries@, content, options, 0);
                let entry = ParseCacheEntry {
                    key: content,
                    options,
                    value: fresh,
                    retained_bytes: options_bytes.saturating_add(fresh_bytes),
                };
                &&& found == (pos is Some)
                &&& match pos {
                    Some(pos) => final(self)@ == fronted(old(self)@, pos),
                    None => evicted(pushed(old(self)@, entry), final(self)@),
                }
            }),
    {
        if self.find_content(content, options) {
            return true;
        }
        self.push_front(
            ParseCacheEntry {
                key: content,
                options,
                value: fresh,
                retained_bytes: options_bytes.saturating_add(fresh_bytes),
            },
        );
        false
    }

    /// Takes in the bytes that the entry of a content keeps by now, and drops entries
    /// from the back until the cache is within bounds.
    pub fn refresh_entry(&mut self, content: u64, options: u64, bytes: usize)
        requires
            old(self).wf(),
        ensures
            final(self).wf(),
            match content_position(old(self).entries@, content, options, 0) {
                Some(pos) => evicted(resized(old(self)@, pos, bytes), final(self)@),
                None => final(self)@ == old(self)@,
            },
    {
        let ghost before = self.entries@;
        let pos = match self.position(content, options) {
            Some(pos) => pos,
            None => {
                return;
            },
        };
        proof {
            lemma_entry_bytes_remove(before, pos as int);
            lemma_entry_bytes_nonnegative(before.remove(pos as int));
        }
        if let Some(entry) = self.entries.remove(pos) {
            self.retained_bytes = self.retained_bytes.saturating_sub(
                entry.retained_bytes,
            ).saturating_add(bytes);
            let entry = ParseCacheEntry { retained_bytes: bytes, ..entry };
            self.entries.insert(pos, entry);
            proof {
                let now = before.update(pos as int, entry);
                assert(self.entries@ =~= now);
                lemma_entry_bytes_remove(now, pos as int);
                assert(now.remove(pos as int) =~= before.remove(pos as int));
            }
            self.evict_to_budget();
        }
    }
}

/// A content that fits into the cache is found when it is looked up again: its entry is in
/// front, whatever else went.
pub proof fn parsed_content_is_found_again<V>(
    before: CacheState<u64, V>,
    entry: ParseCacheEntry<u64, V>,
    places: usize,
)
    requires
        before.bytes <= entry_bytes(before.entries),
        entry.retained_bytes + places * vstd::layout::size_of::<ParseCacheEntry<u64, V>>()
            <= MARKDOWN_PARSE_CACHE_BYTES,
    ensures
        content_position(
            fitting(pushed(before, entry), places).entries,
            entry.key,
            entry.options,
            0,
        ) == Some(0int),
{
    fitting_entry_stays(before, entry, places);
}

} // verus!
