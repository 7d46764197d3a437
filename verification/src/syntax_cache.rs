//! Highlights of inline code, kept per language and source while the theme stays.
use vstd::prelude::*;
use crate::ir::InlineSyntaxSpan;
use crate::ir_copy::copy_highlights;
use crate::text::{byte_len, text_bytes};
use std::collections::hash_map::DefaultHasher;
use std::hash::{Hash, Hasher};

verus! {

/// Bytes that cached highlights may keep.
pub const INLINE_SYNTAX_CACHE_BUDGET: usize = 256 * 1024;

/// Highlights of one source in one language.
#[derive(Debug)]
pub struct CachedInlineSyntax {
    pub language: String,
    pub source: String,
    pub spans: Vec<InlineSyntaxSpan>,
    pub retained_bytes: usize,
}

/// The cached highlights whose language and source hash to `key`.
#[derive(Debug)]
pub struct SyntaxBucket {
    pub key: u64,
    pub entries: Vec<CachedInlineSyntax>,
}

/// Cached highlights under one revision of the theme, least recently used first.
#[derive(Debug)]
pub struct InlineSyntaxCache {
    pub buckets: Vec<SyntaxBucket>,
    pub retained_bytes: usize,
    pub theme_revision: u64,
}

/// The first bucket of `key` from `i` on.
pub open spec fn bucket_position(buckets: Seq<SyntaxBucket>, key: u64, i: int) -> Option<int>
    decreases buckets.len() - i,
{
    if i >= buckets.len() {
        None
    } else if buckets[i].key == key {
        Some(i)
    } else {
        bucket_position(buckets, key, i + 1)
    }
}

/// The buckets but for that of `key`.
pub open spec fn without_key(buckets: Seq<SyntaxBucket>, key: u64) -> Seq<SyntaxBucket> {
    match bucket_position(buckets, key, 0) {
        Some(pos) => buckets.remove(pos),
        None => buckets,
    }
}

/// The entries under `key`.
pub open spec fn entries_of(buckets: Seq<SyntaxBucket>, key: u64) -> Seq<CachedInlineSyntax> {
    match bucket_position(buckets, key, 0) {
        Some(pos) => buckets[pos].entries@,
        None => Seq::empty(),
    }
}

/// The first entry for this language and source from `i` on.
pub open spec fn entry_position(
    entries: Seq<CachedInlineSyntax>,
    language: Seq<char>,
    source: Seq<char>,
    i: int,
) -> Option<int>
    decreases entries.len() - i,
{
    if i >= entries.len() {
        None
    } else if entries[i].language@ == language && entries[i].source@ == source {
        Some(i)
    } else {
        entry_position(entries, language, source, i + 1)
    }
}

/// Bytes of some entries.
pub open spec fn syntax_entry_bytes(entries: Seq<CachedInlineSyntax>) -> int
    decreases entries.len(),
{
    if entries.len() == 0 {
        0
    } else {
        syntax_entry_bytes(entries.drop_last()) + entries.last().retained_bytes
    }
}

/// Bytes of all entries in some buckets.
pub open spec fn bucket_bytes(buckets: Seq<SyntaxBucket>) -> int
    decreases buckets.len(),
{
    if buckets.len() == 0 {
        0
    } else {
        bucket_bytes(buckets.drop_last()) + syntax_entry_bytes(buckets.last().entries@)
    }
}

/// The buckets that are left once the oldest are dropped until the rest fits.
pub open spec fn within_budget(buckets: Seq<SyntaxBucket>) -> Seq<SyntaxBucket>
    decreases buckets.len(),
{
    if buckets.len() > 0 && bucket_bytes(buckets) > INLINE_SYNTAX_CACHE_BUDGET {
        within_budget(buckets.drop_first())
    } else {
        buckets
    }
}

/// `after` is `before` with `entry` added under `key`, whose bucket is now the newest.
pub open spec fn entry_added(
    before: Seq<SyntaxBucket>,
    key: u64,
    entry: CachedInlineSyntax,
    after: Seq<SyntaxBucket>,
) -> bool {
    &&& after.len() > 0
    &&& after.drop_last() == without_key(before, key)
    &&& after.last().key == key
    &&& after.last().entries@ == entries_of(before, key).push(entry)
}

/// Bytes that an entry keeps.
pub open spec fn syntax_weight(language: Seq<char>, source: Seq<char>, spans: int) -> int {
    vstd::layout::size_of::<CachedInlineSyntax>() + text_bytes(language)
        + text_bytes(source) + spans * vstd::layout::size_of::<InlineSyntaxSpan>()
}

/// `f` gives `v` on some strings with these characters.
pub open spec fn highlights_to<F: Fn(&str, &str) -> Vec<InlineSyntaxSpan>>(
    f: F,
    language: Seq<char>,
    source: Seq<char>,
    v: Seq<InlineSyntaxSpan>,
) -> bool {
    exists|l: &str, s: &str, r: Vec<InlineSyntaxSpan>| #[trigger]
        call_ensures(f, (l, s), r) && l@ == language && s@ == source && r@ == v
}

/// What `f` highlights in a source.
pub open spec fn highlighted<F: Fn(&str, &str) -> Vec<InlineSyntaxSpan>>(
    f: F,
    language: Seq<char>,
    source: Seq<char>,
) -> Seq<InlineSyntaxSpan> {
    choose|v: Seq<InlineSyntaxSpan>| highlights_to(f, language, source, v)
}

/// `f` can be called on anything, and its result depends on the characters alone.
pub open spec fn pure_highlighter<F: Fn(&str, &str) -> Vec<InlineSyntaxSpan>>(f: F) -> bool {
    &&& forall|l: &str, s: &str| #[trigger] call_requires(f, (l, s))
    &&& forall|language: Seq<char>, source: Seq<char>, v: Seq<InlineSyntaxSpan>, w: Seq<
        InlineSyntaxSpan,
    >|
        #[trigger] highlights_to(f, language, source, v) && #[trigger] highlights_to(
            f,
            language,
            source,
            w,
        ) ==> v == w
}

proof fn lemma_bucket_position(buckets: Seq<SyntaxBucket>, key: u64, i: int)
    requires
        0 <= i <= buckets.len(),
    ensures
        match bucket_position(buckets, key, i) {
            Some(pos) => i <= pos < buckets.len() && buckets[pos].key == key,
            None => forall|j: int| i <= j < buckets.len() ==> (#[trigger] buckets[j]).key != key,
        },
    decreases buckets.len() - i,
{
    if i < buckets.len() && buckets[i].key != key {
        lemma_bucket_position(buckets, key, i + 1);
    }
}

proof fn lemma_entry_bytes_bounds(entries: Seq<CachedInlineSyntax>)
    ensures
        syntax_entry_bytes(entries) >= 0,
    decreases entries.len(),
{
    if entries.len() > 0 {
        lemma_entry_bytes_bounds(entries.drop_last());
    }
}

proof fn lemma_bucket_bytes_remove(buckets: Seq<SyntaxBucket>, i: int)
    requires
        0 <= i < buckets.len(),
    ensures
        bucket_bytes(buckets) == bucket_bytes(buckets.remove(i)) + syntax_entry_bytes(
            buckets[i].entries@,
        ),
    decreases buckets.len(),
{
    if i == buckets.len() - 1 {
        assert(buckets.remove(i) =~= buckets.drop_last());
    } else {
        lemma_bucket_bytes_remove(buckets.drop_last(), i);
        assert(buckets.remove(i).drop_last() =~= buckets.drop_last().remove(i));
    }
}

proof fn lemma_bucket_bytes_bounds(buckets: Seq<SyntaxBucket>)
    ensures
        bucket_bytes(buckets) >= 0,
        forall|i: int|
            0 <= i < buckets.len() ==> 0 <= syntax_entry_bytes((#[trigger] buckets[i]).entries@)
                <= bucket_bytes(buckets),
    decreases buckets.len(),
{
    if buckets.len() > 0 {
        let init = buckets.drop_last();
        lemma_bucket_bytes_bounds(init);
        lemma_entry_bytes_bounds(buckets.last().entries@);
        assert forall|i: int| 0 <= i < buckets.len() implies 0 <= syntax_entry_bytes(
            (#[trigger] buckets[i]).entries@,
        ) <= bucket_bytes(buckets) by {
            if i < init.len() {
                assert(init[i] == buckets[i]);
            }
        }
    }
}

/// `Hash::hash` of a string: feeds it to the hasher. What the hasher holds then is not
/// stated: how a string is fed is up to the standard library.
#[verifier::external_body]
fn hash_text(hasher: &mut DefaultHasher, text: &str) {
    text.hash(hasher);
}

/// A number for a text, by which it is found again in this process.
pub(crate) fn text_key(text: &str) -> (key: u64) {
    let mut hasher = DefaultHasher::new();
    hash_text(&mut hasher, text);
    hasher.finish()
}

/// A number for a language and a source, by which they are found again in this process.
fn syntax_key(language: &str, source: &str) -> (key: u64) {
    let mut hasher = DefaultHasher::new();
    hash_text(&mut hasher, language);
    hash_text(&mut hasher, source);
    hasher.finish()
}

/// `after` is what a lookup leaves of `before` that gave `spans`.
pub open spec fn looked_up(
    before: Seq<SyntaxBucket>,
    key: u64,
    language: Seq<char>,
    source: Seq<char>,
    spans: Seq<InlineSyntaxSpan>,
    after: Seq<SyntaxBucket>,
) -> bool {
    let weight = syntax_weight(language, source, spans.len() as int);
    match entry_position(entries_of(before, key), language, source, 0) {
        Some(_) => {
            let pos = bucket_position(before, key, 0)->0;
            after == before.remove(pos).push(before[pos])
        },
        None => {
            &&& weight > INLINE_SYNTAX_CACHE_BUDGET ==> after == before
            &&& weight <= INLINE_SYNTAX_CACHE_BUDGET ==> exists|
                mid: Seq<SyntaxBucket>,
                entry: CachedInlineSyntax,
            |
                {
                    &&& #[trigger] entry_added(before, key, entry, mid)
                    &&& entry.language@ == language
                    &&& entry.source@ == source
                    &&& entry.spans@ == spans
                    &&& entry.retained_bytes == weight
                    &&& after == within_budget(mid)
                }
        },
    }
}

/// A source that is looked up in its language.
pub struct SyntaxLookup {
    pub language: Seq<char>,
    pub source: Seq<char>,
}

/// `after` is what one lookup leaves of `before`, under some key for the language and the
/// source.
pub open spec fn lookup_leaves<F: Fn(&str, &str) -> Vec<InlineSyntaxSpan>>(
    f: F,
    theme_revision: u64,
    before: InlineSyntaxCache,
    lookup: SyntaxLookup,
    after: InlineSyntaxCache,
) -> bool {
    &&& after.wf()
    &&& after.theme_revision == theme_revision
    &&& exists|key: u64| #[trigger]
        looked_up(
            before.under(theme_revision),
            key,
            lookup.language,
            lookup.source,
            highlighted(f, lookup.language, lookup.source),
            after.buckets@,
        )
}

/// `after` is what some lookups, one after the other, leave of `before`.
pub open spec fn lookups_leave<F: Fn(&str, &str) -> Vec<InlineSyntaxSpan>>(
    f: F,
    theme_revision: u64,
    before: InlineSyntaxCache,
    lookups: Seq<SyntaxLookup>,
    after: InlineSyntaxCache,
) -> bool
    decreases lookups.len(),
{
    if lookups.len() == 0 {
        after == before
    } else {
        exists|mid: InlineSyntaxCache|
            lookups_leave(f, theme_revision, before, lookups.drop_last(), mid)
                && #[trigger] lookup_leaves(f, theme_revision, mid, lookups.last(), after)
    }
}

pub(crate) proof fn lemma_one_more_lookup<F: Fn(&str, &str) -> Vec<InlineSyntaxSpan>>(
    f: F,
    theme_revision: u64,
    before: InlineSyntaxCache,
    lookups: Seq<SyntaxLookup>,
    mid: InlineSyntaxCache,
    lookup: SyntaxLookup,
    after: InlineSyntaxCache,
)
    requires
        lookups_leave(f, theme_revision, before, lookups, mid),
        lookup_leaves(f, theme_revision, mid, lookup, after),
    ensures
        lookups_leave(f, theme_revision, before, lookups.push(lookup), after),
{
    let all = lookups.push(lookup);
    assert(all.drop_last() =~= lookups);
    assert(lookup_leaves(f, theme_revision, mid, all.last(), after));
}

pub(crate) proof fn lemma_more_lookups<F: Fn(&str, &str) -> Vec<InlineSyntaxSpan>>(
    f: F,
    theme_revision: u64,
    before: InlineSyntaxCache,
    lookups: Seq<SyntaxLookup>,
    mid: InlineSyntaxCache,
    more: Seq<SyntaxLookup>,
    after: InlineSyntaxCache,
)
    requires
        lookups_leave(f, theme_revision, before, lookups, mid),
        lookups_leave(f, theme_revision, mid, more, after),
    ensures
        lookups_leave(f, theme_revision, before, lookups + more, after),
    decreases more.len(),
{
    if more.len() == 0 {
        assert(lookups + more =~= lookups);
    } else {
        let last = choose|last: InlineSyntaxCache|
            lookups_leave(f, theme_revision, mid, more.drop_last(), last)
                && #[trigger] lookup_leaves(f, theme_revision, last, more.last(), after);
        lemma_more_lookups(f, theme_revision, before, lookups, mid, more.drop_last(), last);
        assert((lookups + more).drop_last() =~= lookups + more.drop_last());
        assert((lookups + more).last() == more.last());
    }
}

impl InlineSyntaxCache {
    /// Every key has one bucket, the bytes kept are those of the entries, and they are
    /// within budget.
    pub open spec fn wf(&self) -> bool {
        &&& forall|i: int, j: int|
            0 <= i < j < self.buckets@.len() ==> (#[trigger] self.buckets@[i]).key != (
            #[trigger] self.buckets@[j]).key
        &&& self.retained_bytes == bucket_bytes(self.buckets@)
        &&& self.retained_bytes <= INLINE_SYNTAX_CACHE_BUDGET
    }

    /// What is cached under `theme_revision` is what `f` highlights.
    pub open spec fn agrees<F: Fn(&str, &str) -> Vec<InlineSyntaxSpan>>(
        &self,
        f: F,
        theme_revision: u64,
    ) -> bool {
        self.theme_revision == theme_revision ==> agree(self.buckets@, f)
    }

    /// What is cached under a revision of the theme.
    pub open spec fn under(&self, theme_revision: u64) -> Seq<SyntaxBucket> {
        if self.theme_revision == theme_revision {
            self.buckets@
        } else {
            Seq::empty()
        }
    }

    /// A cache of nothing.
    pub fn new() -> (cache: Self)
        ensures
            cache.wf(),
            cache.buckets@.len() == 0,
            cache.theme_revision == 0,
    {
        InlineSyntaxCache { buckets: Vec::new(), retained_bytes: 0, theme_revision: 0 }
    }

    /// Drops everything that was highlighted under another revision of the theme.
    pub fn ensure_theme(&mut self, theme_revision: u64)
        requires
            old(self).wf(),
        ensures
            final(self).wf(),
            final(self).theme_revision == theme_revision,
            old(self).theme_revision == theme_revision ==> *final(self) == *old(self),
            old(self).theme_revision != theme_revision ==> final(self).buckets@.len() == 0,
    {
        if self.theme_revision == theme_revision {
            return ;
        }
        self.buckets = Vec::new();
        self.retained_bytes = 0;
        self.theme_revision = theme_revision;
    }

    fn position(&self, key: u64) -> (pos: Option<usize>)
        ensures
            match pos {
                Some(pos) => bucket_position(self.buckets@, key, 0) == Some(pos as int),
                None => bucket_position(self.buckets@, key, 0) is None,
            },
    {
        let mut i: usize = 0;
        while i < self.buckets.len()
            invariant
                i <= self.buckets@.len(),
                bucket_position(self.buckets@, key, 0) == bucket_position(
                    self.buckets@,
                    key,
                    i as int,
                ),
            decreases self.buckets@.len() - i,
        {
            if self.buckets[i].key == key {
                return Some(i);
            }
            i += 1;
        }
        None
    }

    /// Drops the bucket that was least recently used. Whether there was one.
    pub fn evict_oldest(&mut self) -> (evicted: bool)
        requires
            old(self).retained_bytes == bucket_bytes(old(self).buckets@),
        ensures
            evicted == (old(self).buckets@.len() > 0),
            evicted ==> final(self).buckets@ == old(self).buckets@.drop_first(),
            !evicted ==> *final(self) == *old(self),
            final(self).retained_bytes == bucket_bytes(final(self).buckets@),
            final(self).theme_revision == old(self).theme_revision,
    {
        if self.buckets.len() == 0 {
            return false;
        }
        let ghost before = self.buckets@;
        proof {
            lemma_bucket_bytes_remove(before, 0);
            lemma_bucket_bytes_bounds(before);
            assert(before.remove(0) =~= before.drop_first());
            lemma_bucket_bytes_bounds(before.drop_first());
        }
        let bucket = self.buckets.remove(0);
        let mut sum: usize = 0;
        let mut i: usize = 0;
        while i < bucket.entries.len()
            invariant
                i <= bucket.entries@.len(),
                sum == syntax_entry_bytes(bucket.entries@.take(i as int)),
                syntax_entry_bytes(bucket.entries@) <= usize::MAX,
            decreases bucket.entries@.len() - i,
        {
            proof {
                assert(bucket.entries@.take(i + 1).drop_last() =~= bucket.entries@.take(i as int));
                lemma_syntax_prefix(bucket.entries@, i + 1);
            }
            sum = sum + bucket.entries[i].retained_bytes;
            i += 1;
        }
        proof {
            assert(bucket.entries@.take(i as int) =~= bucket.entries@);
        }
        self.retained_bytes = self.retained_bytes.saturating_sub(sum);
        true
    }

    /// The highlights of a source whose language and source hash to `key`: cached ones,
    /// or new ones that are then cached if they are small enough.
    pub fn get_or_compile_keyed<F: Fn(&str, &str) -> Vec<InlineSyntaxSpan>>(
        &mut self,
        theme_revision: u64,
        key: u64,
        language: &str,
        source: &str,
        highlight: &F,
    ) -> (spans: Vec<InlineSyntaxSpan>)
        requires
            old(self).wf(),
            pure_highlighter(*highlight),
            old(self).agrees(*highlight, theme_revision),
        ensures
            final(self).wf(),
            final(self).agrees(*highlight, theme_revision),
            final(self).theme_revision == theme_revision,
            spans@ == highlighted(*highlight, language@, source@),
            looked_up(
                old(self).under(theme_revision),
                key,
                language@,
                source@,
                spans@,
                final(self).buckets@,
            ),
    {
        self.ensure_theme(theme_revision);
        let ghost before = self.buckets@;
        proof {
            assert(before =~= old(self).under(theme_revision));
            lemma_bucket_position(before, key, 0);
        }
        let language_name = String::from_str(language);
        let source_text = String::from_str(source);
        let position = self.position(key);
        if let Some(pos) = position {
            let mut found: Option<usize> = None;
            let mut i: usize = 0;
            let ghost entries = self.buckets@[pos as int].entries@;
            while i < self.buckets[pos].entries.len()
                invariant_except_break
                    found is None,
                invariant
                    pos < self.buckets@.len(),
                    self.buckets@ == before,
                    language_name@ == language@,
                    source_text@ == source@,
                    entries == self.buckets@[pos as int].entries@,
                    i <= entries.len(),
                    entry_position(entries, language@, source@, 0) == entry_position(
                        entries,
                        language@,
                        source@,
                        i as int,
                    ),
                ensures
                    match found {
                        Some(i) => i < entries.len() && entry_position(
                            entries,
                            language@,
                            source@,
                            0,
                        ) == Some(i as int) && entries[i as int].language@ == language@
                            && entries[i as int].source@ == source@,
                        None => entry_position(entries, language@, source@, 0) is None,
                    },
                decreases entries.len() - i,
            {
                let entry = &self.buckets[pos].entries[i];
                if entry.language == language_name && entry.source == source_text {
                    found = Some(i);
                    break ;
                }
                i += 1;
            }
            if let Some(i) = found {
                let spans = copy_highlights(&self.buckets[pos].entries[i].spans);
                let bucket = self.buckets.remove(pos);
                self.buckets.push(bucket);
                proof {
                    lemma_bucket_bytes_remove(before, pos as int);
                    assert(self.buckets@.drop_last() =~= before.remove(pos as int));
                }
                return spans;
            }
        }
        let spans = highlight(language, source);
        proof {
            assert(highlights_to(*highlight, language@, source@, spans@));
        }
        let size = core::mem::size_of::<CachedInlineSyntax>();
        let span_size = core::mem::size_of::<InlineSyntaxSpan>();
        let span_bytes = match spans.len().checked_mul(span_size) {
            Some(bytes) => bytes,
            None => usize::MAX,
        };
        let retained_bytes = size.saturating_add(byte_len(language)).saturating_add(
            byte_len(source),
        ).saturating_add(span_bytes);
        proof {
            let weight = syntax_weight(language@, source@, spans@.len() as int);
            assert(retained_bytes <= INLINE_SYNTAX_CACHE_BUDGET ==> retained_bytes == weight);
            assert(retained_bytes > INLINE_SYNTAX_CACHE_BUDGET ==> weight
                > INLINE_SYNTAX_CACHE_BUDGET);
        }
        if retained_bytes <= INLINE_SYNTAX_CACHE_BUDGET {
            let entry = CachedInlineSyntax {
                language: language_name,
                source: source_text,
                spans: copy_highlights(&spans),
                retained_bytes,
            };
            let ghost added = entry;
            if let Some(pos) = position {
                let mut bucket = self.buckets.remove(pos);
                proof {
                    lemma_bucket_bytes_remove(before, pos as int);
                    assert(bucket.entries@.push(entry).drop_last() =~= bucket.entries@);
                }
                bucket.entries.push(entry);
                self.buckets.push(bucket);
            } else {
                let ghost empty = Seq::<CachedInlineSyntax>::empty();
                proof {
                    assert(empty.push(entry).drop_last() =~= empty);
                    assert(syntax_entry_bytes(empty) == 0);
                }
                let mut entries: Vec<CachedInlineSyntax> = Vec::new();
                entries.push(entry);
                self.buckets.push(SyntaxBucket { key, entries });
            }
            let ghost mid = self.buckets@;
            proof {
                assert(mid.drop_last() =~= without_key(before, key));
                assert(entry_added(before, key, added, mid));
                assert(syntax_entry_bytes(mid.last().entries@) == syntax_entry_bytes(
                    entries_of(before, key),
                ) + retained_bytes);
            }
            self.retained_bytes = self.retained_bytes.saturating_add(retained_bytes);
            while self.retained_bytes > INLINE_SYNTAX_CACHE_BUDGET
                invariant
                    self.retained_bytes == bucket_bytes(self.buckets@),
                    within_budget(self.buckets@) == within_budget(mid),
                    self.theme_revision == theme_revision,
                    agree(self.buckets@, *highlight),
                    forall|i: int, j: int|
                        0 <= i < j < self.buckets@.len() ==> (#[trigger] self.buckets@[i]).key != (
                        #[trigger] self.buckets@[j]).key,
                decreases self.buckets@.len(),
            {
                self.evict_oldest();
            }
            proof {
                assert(self.buckets@ == within_budget(mid));
            }
        }
        spans
    }

    /// The highlights of a source: cached ones, or new ones that are then cached if they
    /// are small enough.
    pub fn get_or_compile<F: Fn(&str, &str) -> Vec<InlineSyntaxSpan>>(
        &mut self,
        theme_revision: u64,
        language: &str,
        source: &str,
        highlight: &F,
    ) -> (spans: Vec<InlineSyntaxSpan>)
        requires
            old(self).wf(),
            pure_highlighter(*highlight),
            old(self).agrees(*highlight, theme_revision),
        ensures
            final(self).wf(),
            final(self).agrees(*highlight, theme_revision),
            spans@ == highlighted(*highlight, language@, source@),
            lookup_leaves(
                *highlight,
                theme_revision,
                *old(self),
                SyntaxLookup { language: language@, source: source@ },
                *final(self),
            ),
    {
        let key = syntax_key(language, source);
        let ghost before = self.under(theme_revision);
        let spans = self.get_or_compile_keyed(theme_revision, key, language, source, highlight);
        proof {
            let lookup = SyntaxLookup { language: language@, source: source@ };
            assert(looked_up(
                before,
                key,
                lookup.language,
                lookup.source,
                highlighted(*highlight, lookup.language, lookup.source),
                self.buckets@,
            ));
            assert(lookup_leaves(*highlight, theme_revision, *old(self), lookup, *self));
        }
        spans
    }
}

/// What the buckets hold is what `f` highlights.
pub open spec fn agree<F: Fn(&str, &str) -> Vec<InlineSyntaxSpan>>(
    buckets: Seq<SyntaxBucket>,
    f: F,
) -> bool {
    forall|i: int, j: int|
        0 <= i < buckets.len() && 0 <= j < buckets[i].entries@.len()
            ==> (#[trigger] buckets[i].entries@[j]).spans@ == highlighted(
            f,
            buckets[i].entries@[j].language@,
            buckets[i].entries@[j].source@,
        )
}

/// Dropping the oldest bucket keeps the cache in order.
pub(crate) proof fn lemma_drop_first_wf(before: InlineSyntaxCache, after: InlineSyntaxCache)
    requires
        before.wf(),
        before.buckets@.len() > 0,
        after.buckets@ == before.buckets@.drop_first(),
        after.retained_bytes == bucket_bytes(after.buckets@),
    ensures
        after.wf(),
{
    lemma_bucket_bytes_remove(before.buckets@, 0);
    lemma_bucket_bytes_bounds(before.buckets@);
    assert(before.buckets@.remove(0) =~= before.buckets@.drop_first());
}

proof fn lemma_syntax_prefix(entries: Seq<CachedInlineSyntax>, n: int)
    requires
        0 <= n <= entries.len(),
    ensures
        syntax_entry_bytes(entries.take(n)) <= syntax_entry_bytes(entries),
    decreases entries.len(),
{
    if n == entries.len() {
        assert(entries.take(n) =~= entries);
    } else {
        lemma_syntax_prefix(entries.drop_last(), n);
        assert(entries.drop_last().take(n) =~= entries.take(n));
    }
}

proof fn lemma_newest_fits(buckets: Seq<SyntaxBucket>)
    requires
        buckets.len() > 0,
        syntax_entry_bytes(buckets.last().entries@) <= INLINE_SYNTAX_CACHE_BUDGET,
    ensures
        within_budget(buckets).len() > 0,
        within_budget(buckets).last() == buckets.last(),
    decreases buckets.len(),
{
    if bucket_bytes(buckets) > INLINE_SYNTAX_CACHE_BUDGET {
        if buckets.len() == 1 {
            assert(buckets.drop_last() =~= Seq::<SyntaxBucket>::empty());
            assert(bucket_bytes(buckets.drop_last()) == 0);
        } else {
            assert(buckets.drop_first().last() == buckets.last());
            lemma_newest_fits(buckets.drop_first());
        }
    }
}

proof fn lemma_entry_found(
    entries: Seq<CachedInlineSyntax>,
    language: Seq<char>,
    source: Seq<char>,
    i: int,
    j: int,
)
    requires
        0 <= i <= j < entries.len(),
        entries[j].language@ == language,
        entries[j].source@ == source,
    ensures
        entry_position(entries, language, source, i) is Some,
    decreases j - i,
{
    if !(entries[i].language@ == language && entries[i].source@ == source) {
        lemma_entry_found(entries, language, source, i + 1, j);
    }
}

proof fn lemma_entry_position(
    entries: Seq<CachedInlineSyntax>,
    language: Seq<char>,
    source: Seq<char>,
    i: int,
)
    requires
        0 <= i <= entries.len(),
    ensures
        entry_position(entries, language, source, i) matches Some(j) ==> i <= j < entries.len()
            && entries[j].language@ == language && entries[j].source@ == source,
    decreases entries.len() - i,
{
    if i < entries.len() && !(entries[i].language@ == language && entries[i].source@ == source) {
        lemma_entry_position(entries, language, source, i + 1);
    }
}

/// What was looked up is found by the next lookup, which changes nothing any more, if the
/// highlights under its key have room beside each other.
pub proof fn looked_up_source_is_found(
    before: Seq<SyntaxBucket>,
    key: u64,
    language: Seq<char>,
    source: Seq<char>,
    spans: Seq<InlineSyntaxSpan>,
    after: InlineSyntaxCache,
)
    requires
        after.wf(),
        looked_up(before, key, language, source, spans, after.buckets@),
        syntax_entry_bytes(entries_of(before, key)) + syntax_weight(
            language,
            source,
            spans.len() as int,
        ) <= INLINE_SYNTAX_CACHE_BUDGET,
    ensures
        entry_position(entries_of(after.buckets@, key), language, source, 0) is Some,
        looked_up(after.buckets@, key, language, source, spans, after.buckets@),
{
    let buckets = after.buckets@;
    let entries = entries_of(before, key);
    lemma_bucket_position(before, key, 0);
    lemma_bucket_position(buckets, key, 0);
    lemma_entry_position(entries, language, source, 0);
    lemma_entry_bytes_bounds(entries);
    let last = buckets.len() - 1;
    match entry_position(entries, language, source, 0) {
        Some(j) => {
            assert(buckets[last] == before[bucket_position(before, key, 0)->0]);
            lemma_entry_found(buckets[last].entries@, language, source, 0, j);
        },
        None => {
            let (mid, entry) = choose|mid: Seq<SyntaxBucket>, entry: CachedInlineSyntax|
                {
                    &&& #[trigger] entry_added(before, key, entry, mid)
                    &&& entry.language@ == language
                    &&& entry.source@ == source
                    &&& entry.spans@ == spans
                    &&& entry.retained_bytes == syntax_weight(
                        language,
                        source,
                        spans.len() as int,
                    )
                    &&& buckets == within_budget(mid)
                };
            assert(mid.last().entries@.drop_last() =~= entries);
            lemma_newest_fits(mid);
            assert(buckets[last] == mid.last());
            lemma_entry_found(buckets[last].entries@, language, source, 0, entries.len() as int);
        },
    }
    let pos = bucket_position(buckets, key, 0)->0;
    if pos < last {
        assert(buckets[pos].key != buckets[last].key);
    }
    assert(buckets.remove(last).push(buckets[last]) =~= buckets);
}

} // verus!
