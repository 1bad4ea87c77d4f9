//! Requests, items, batches, events and effects of completion.

use crate::completion::matcher::CompletionPreviewProbe;
use crate::measure::capped;
use crate::protocol::{ContentId, Revision, Selection, TextOffset, ViewId};
use crate::text::{
    byte_len, chars_of, compare_text, convert_option, converts_to, lemma_lex_reflexive,
    lemma_lex_same, lemma_text_key_injective, lex, option_converts_to, same_text, share,
    share_option, text_key, text_order, Order,
};
use std::cmp::Ordering;
use std::mem;
use std::sync::Arc;
use vstd::layout::size_of;
use vstd::prelude::*;
use vstd::std_specs::cmp::{PartialEqSpec, PartialOrdSpec};
use vstd::string::StrSliceExecFns;

verus! {

/// Name of a completion source.
#[derive(Debug, Eq, Hash, Ord)]
pub struct CompletionSourceKey(Arc<str>);

impl CompletionSourceKey {
    /// The characters of the name; keys with the same characters are the same key.
    pub closed spec fn name(self) -> Seq<char> {
        chars_of(self.0)
    }

    /// The shared string that holds the name.
    pub closed spec fn text(self) -> Arc<str> {
        self.0
    }

    pub fn new<T: Into<Arc<str>>>(value: T) -> (key: Self)
        ensures
            converts_to(value, key.text()),
            key.name() == chars_of(key.text()),
    {
        CompletionSourceKey(value.into())
    }

    pub fn as_str(&self) -> (text: &str)
        ensures
            text@ == self.name(),
    {
        &*self.0
    }
}

impl Clone for CompletionSourceKey {
    fn clone(&self) -> (copy: Self)
        ensures
            copy == *self,
    {
        CompletionSourceKey(share(&self.0))
    }
}

impl PartialEq for CompletionSourceKey {
    fn eq(&self, other: &Self) -> (same: bool) {
        same_text(self.as_str(), other.as_str())
    }
}

impl vstd::std_specs::cmp::PartialEqSpecImpl for CompletionSourceKey {
    open spec fn obeys_eq_spec() -> bool {
        true
    }

    open spec fn eq_spec(&self, other: &Self) -> bool {
        self.name() == other.name()
    }
}

/// How two keys stand to each other: as their names do.
pub open spec fn key_order(left: CompletionSourceKey, right: CompletionSourceKey) -> Ordering {
    match text_order(left.name(), right.name()) {
        Order::Less => Ordering::Less,
        Order::Same => Ordering::Equal,
        Order::More => Ordering::Greater,
    }
}

impl PartialOrd for CompletionSourceKey {
    fn partial_cmp(&self, other: &Self) -> (order: Option<Ordering>) {
        Some(
            match compare_text(self.as_str(), other.as_str()) {
                Order::Less => Ordering::Less,
                Order::Same => Ordering::Equal,
                Order::More => Ordering::Greater,
            },
        )
    }
}

impl vstd::std_specs::cmp::PartialOrdSpecImpl for CompletionSourceKey {
    open spec fn obeys_partial_cmp_spec() -> bool {
        true
    }

    open spec fn partial_cmp_spec(&self, other: &Self) -> Option<Ordering> {
        Some(key_order(*self, *other))
    }
}

impl vstd::std_specs::convert::FromSpecImpl<&str> for CompletionSourceKey {
    open spec fn obeys_from_spec() -> bool {
        false
    }

    open spec fn from_spec(value: &str) -> Self {
        arbitrary()
    }
}

impl From<&str> for CompletionSourceKey {
    fn from(value: &str) -> (key: Self)
        ensures
            key.name() == value@,
    {
        CompletionSourceKey::new(value)
    }
}

impl vstd::std_specs::convert::FromSpecImpl<String> for CompletionSourceKey {
    open spec fn obeys_from_spec() -> bool {
        false
    }

    open spec fn from_spec(value: String) -> Self {
        arbitrary()
    }
}

impl From<String> for CompletionSourceKey {
    fn from(value: String) -> (key: Self)
        ensures
            key.name() == value@,
    {
        CompletionSourceKey::new(value)
    }
}

/// Two keys made of texts are the same key exactly where the texts are the same, and stand to each
/// other in the order of the texts, which tells them apart.
pub proof fn law_keys_stand_as_their_texts_do(
    a: &str,
    b: &str,
    left: CompletionSourceKey,
    right: CompletionSourceKey,
)
    requires
        converts_to(a, left.text()),
        converts_to(b, right.text()),
    ensures
        left.eq_spec(&right) <==> a@ == b@,
        left.partial_cmp_spec(&right) == Some(
            match text_order(a@, b@) {
                Order::Less => Ordering::Less,
                Order::Same => Ordering::Equal,
                Order::More => Ordering::Greater,
            },
        ),
        left.partial_cmp_spec(&right) == Some(Ordering::Equal) <==> a@ == b@,
{
    let x = text_key(a@);
    let y = text_key(b@);
    lemma_lex_reflexive(x, 0);
    if lex(x, y) is Same {
        assert(x.take(0) =~= y.take(0));
        lemma_lex_same(x, y, 0);
        lemma_text_key_injective(a@, b@);
    }
}

/// Identity of a completion session, unique within one engine.
#[derive(Clone, Copy, Debug, PartialEq, Eq, Structural, Hash, PartialOrd, Ord)]
pub struct CompletionSessionId(pub(crate) u64);

impl CompletionSessionId {
    /// The number behind the identity.
    pub closed spec fn number(self) -> u64 {
        self.0
    }

    pub fn get(self) -> (number: u64)
        ensures
            number == self.number(),
    {
        self.0
    }

    /// The identity behind a number.
    pub closed spec fn of(number: u64) -> Self {
        CompletionSessionId(number)
    }

    pub(crate) fn with_number(number: u64) -> (session: Self)
        ensures
            session == Self::of(number),
            session.number() == number,
    {
        CompletionSessionId(number)
    }
}

/// Counts the requests of one session, starting at one.
#[derive(Clone, Copy, Debug, Default, PartialEq, Eq, Structural, Hash, PartialOrd, Ord)]
pub struct RequestEpoch(pub u64);

/// Version of the items that a source delivers.
#[derive(Clone, Copy, Debug, Default, PartialEq, Eq, Structural, Hash, PartialOrd, Ord)]
pub struct SourceBatchVersion(pub u64);

/// Identity of a candidate: the source, the version of its items and the place among them.
#[derive(Debug, PartialEq, Eq, Hash, PartialOrd, Ord)]
pub struct CandidateId {
    pub source: CompletionSourceKey,
    pub batch: SourceBatchVersion,
    pub ordinal: usize,
}

impl CandidateId {
    /// Both identities name the same candidate.
    pub open spec fn is(self, other: CandidateId) -> bool {
        &&& self.source.name() == other.source.name()
        &&& self.batch == other.batch
        &&& self.ordinal == other.ordinal
    }

    /// Whether both identities name the same candidate.
    pub(crate) fn same(&self, other: &CandidateId) -> (same: bool)
        ensures
            same == self.is(*other),
    {
        self.ordinal == other.ordinal && self.batch == other.batch && self.source == other.source
    }
}

impl Clone for CandidateId {
    fn clone(&self) -> (copy: Self)
        ensures
            copy == *self,
    {
        CandidateId { source: self.source.clone(), batch: self.batch, ordinal: self.ordinal }
    }
}

/// A stretch of text whose start is not after its end.
#[derive(Clone, Copy, Debug, PartialEq, Eq, Structural)]
pub struct CompletionTextRange {
    start: TextOffset,
    end: TextOffset,
}

impl CompletionTextRange {
    /// Where the range begins.
    pub closed spec fn first(self) -> TextOffset {
        self.start
    }

    /// Where the range ends.
    pub closed spec fn last(self) -> TextOffset {
        self.end
    }

    #[verifier::type_invariant]
    spec fn ordered(self) -> bool {
        self.start.char_index <= self.end.char_index
    }

    /// The range from `start` to `end`, where they are in order.
    pub fn new(start: TextOffset, end: TextOffset) -> (range: Option<Self>)
        ensures
            range is Some <==> start.char_index <= end.char_index,
            range matches Some(range) ==> range.first() == start && range.last() == end,
    {
        if start.char_index <= end.char_index {
            Some(CompletionTextRange { start, end })
        } else {
            None
        }
    }

    pub fn char_len(self) -> (length: usize)
        ensures
            length == self.last().char_index - self.first().char_index,
    {
        proof {
            use_type_invariant(self);
        }
        self.end.char_index - self.start.char_index
    }

    pub fn start(self) -> (start: TextOffset)
        ensures
            start == self.first(),
    {
        self.start
    }

    pub fn end(self) -> (end: TextOffset)
        ensures
            end == self.last(),
    {
        self.end
    }
}

/// Why completion was asked for.
#[derive(Debug, PartialEq, Eq)]
pub enum CompletionTrigger {
    Manual,
    Identifier,
    Delete,
    Character(char),
    Incomplete,
    Refresh,
}

impl Clone for CompletionTrigger {
    fn clone(&self) -> (copy: Self)
        ensures
            copy == *self,
    {
        match self {
            CompletionTrigger::Manual => CompletionTrigger::Manual,
            CompletionTrigger::Identifier => CompletionTrigger::Identifier,
            CompletionTrigger::Delete => CompletionTrigger::Delete,
            CompletionTrigger::Character(c) => CompletionTrigger::Character(*c),
            CompletionTrigger::Incomplete => CompletionTrigger::Incomplete,
            CompletionTrigger::Refresh => CompletionTrigger::Refresh,
        }
    }
}

/// The heap bytes of a shared string: its characters and the two counters beside them.
pub open spec fn arc_bytes(text: Arc<str>) -> int {
    2 * size_of::<usize>() + byte_len(chars_of(text))
}

/// The heap bytes of an optional shared string.
pub open spec fn option_arc_bytes(text: Option<Arc<str>>) -> int {
    match text {
        Some(text) => arc_bytes(text),
        None => 0,
    }
}

/// The heap bytes of a shared string.
///
/// The payload is counted for every handle, which is deliberately conservative where a provider
/// uses one allocation for several fields.
pub(crate) fn estimated_arc_bytes(value: &Arc<str>) -> (bytes: usize)
    ensures
        bytes == capped(arc_bytes(*value)),
{
    let word = mem::size_of::<usize>();
    word.saturating_add(word).saturating_add(value.len())
}

/// The heap bytes of an optional shared string.
pub(crate) fn estimated_option_bytes(value: &Option<Arc<str>>) -> (bytes: usize)
    ensures
        bytes == capped(option_arc_bytes(*value)),
{
    match value {
        Some(text) => estimated_arc_bytes(text),
        None => 0,
    }
}

/// The characters of an optional text, as a sequence of at most one text.
pub open spec fn optional_text(text: Option<Arc<str>>) -> Seq<Seq<char>> {
    match text {
        Some(text) => seq![chars_of(text)],
        None => Seq::empty(),
    }
}

/// Some text takes more than `limit` bytes.
pub open spec fn some_longer_than(texts: Seq<Seq<char>>, limit: usize) -> bool {
    exists|i: int| 0 <= i < texts.len() && byte_len(#[trigger] texts[i]) > limit
}

/// The characters of each string.
pub open spec fn texts_of(strings: Seq<&str>) -> Seq<Seq<char>> {
    strings.map_values(|text: &str| text@)
}

/// Whether some text takes more than `limit` bytes.
pub(crate) fn any_longer_than(texts: &Vec<&str>, limit: usize) -> (longer: bool)
    ensures
        longer == some_longer_than(texts_of(texts@), limit),
{
    let mut i: usize = 0;
    while i < texts.len()
        invariant
            i <= texts.len(),
            forall|j: int| 0 <= j < i ==> byte_len(#[trigger] texts_of(texts@)[j]) <= limit,
        decreases texts.len() - i,
    {
        if texts[i].len() > limit {
            assert(byte_len(texts_of(texts@)[i as int]) > limit);
            return true;
        }
        i = i + 1;
    }
    false
}

/// Adds the text of `value`, where there is one.
fn push_option<'a>(texts: &mut Vec<&'a str>, value: &'a Option<Arc<str>>)
    ensures
        texts_of(final(texts)@) == texts_of(old(texts)@) + optional_text(*value),
{
    match value {
        Some(text) => {
            texts.push(&**text);
            assert(texts_of(texts@) =~= texts_of(old(texts)@).push(chars_of(*text)));
            assert(texts_of(texts@) =~= texts_of(old(texts)@) + optional_text(*value));
        },
        None => {
            assert(texts_of(texts@) =~= texts_of(old(texts)@) + optional_text(*value));
        },
    }
}

/// What a request says of its surroundings.
pub struct ContextModel {
    pub language: Option<Arc<str>>,
    pub resource_name: Arc<str>,
    pub resource_path: Option<Arc<str>>,
    pub before_cursor: Arc<str>,
    pub after_cursor: Arc<str>,
}

/// Surroundings of a completion request.
#[derive(Debug, Default, PartialEq, Eq)]
pub struct CompletionRequestContext {
    language: Option<Arc<str>>,
    resource_name: Arc<str>,
    resource_path: Option<Arc<str>>,
    before_cursor: Arc<str>,
    after_cursor: Arc<str>,
}

impl CompletionRequestContext {
    /// The parts of the context.
    pub closed spec fn model(self) -> ContextModel {
        ContextModel {
            language: self.language,
            resource_name: self.resource_name,
            resource_path: self.resource_path,
            before_cursor: self.before_cursor,
            after_cursor: self.after_cursor,
        }
    }

    pub fn new<
        L: Into<Arc<str>>,
        N: Into<Arc<str>>,
        P: Into<Arc<str>>,
        B: Into<Arc<str>>,
        A: Into<Arc<str>>,
    >(
        language: Option<L>,
        resource_name: N,
        resource_path: Option<P>,
        before_cursor: B,
        after_cursor: A,
    ) -> (context: Self)
        ensures
            option_converts_to(language, context.model().language),
            converts_to(resource_name, context.model().resource_name),
            option_converts_to(resource_path, context.model().resource_path),
            converts_to(before_cursor, context.model().before_cursor),
            converts_to(after_cursor, context.model().after_cursor),
    {
        CompletionRequestContext {
            language: convert_option(language),
            resource_name: resource_name.into(),
            resource_path: convert_option(resource_path),
            before_cursor: before_cursor.into(),
            after_cursor: after_cursor.into(),
        }
    }

    pub fn language(&self) -> (language: Option<&str>)
        ensures
            language is Some <==> self.model().language is Some,
            language matches Some(text) ==> text@ == chars_of(self.model().language->0),
    {
        match &self.language {
            Some(text) => Some(&**text),
            None => None,
        }
    }

    pub fn resource_name(&self) -> (name: &str)
        ensures
            name@ == chars_of(self.model().resource_name),
    {
        &*self.resource_name
    }

    pub fn resource_path(&self) -> (path: Option<&str>)
        ensures
            path is Some <==> self.model().resource_path is Some,
            path matches Some(text) ==> text@ == chars_of(self.model().resource_path->0),
    {
        match &self.resource_path {
            Some(text) => Some(&**text),
            None => None,
        }
    }

    pub fn before_cursor(&self) -> (text: &str)
        ensures
            text@ == chars_of(self.model().before_cursor),
    {
        &*self.before_cursor
    }

    pub fn after_cursor(&self) -> (text: &str)
        ensures
            text@ == chars_of(self.model().after_cursor),
    {
        &*self.after_cursor
    }

    /// The heap bytes that the strings of the context take.
    pub(crate) fn estimated_heap_bytes(&self) -> (bytes: usize)
        ensures
            bytes == capped(context_heap_bytes(*self)),
    {
        estimated_option_bytes(&self.language).saturating_add(
            estimated_arc_bytes(&self.resource_name),
        ).saturating_add(estimated_option_bytes(&self.resource_path)).saturating_add(
            estimated_arc_bytes(&self.before_cursor),
        ).saturating_add(estimated_arc_bytes(&self.after_cursor))
    }

    /// Every string of the context.
    pub(crate) fn strings(&self) -> (strings: Vec<&str>)
        ensures
            texts_of(strings@) == context_texts(*self),
    {
        let mut strings: Vec<&str> = Vec::new();
        push_option(&mut strings, &self.language);
        push_option(&mut strings, &self.resource_path);
        strings.push(&*self.resource_name);
        strings.push(&*self.before_cursor);
        strings.push(&*self.after_cursor);
        assert(texts_of(strings@) =~= context_texts(*self));
        strings
    }
}

impl Clone for CompletionRequestContext {
    fn clone(&self) -> (copy: Self)
        ensures
            copy == *self,
    {
        CompletionRequestContext {
            language: share_option(&self.language),
            resource_name: share(&self.resource_name),
            resource_path: share_option(&self.resource_path),
            before_cursor: share(&self.before_cursor),
            after_cursor: share(&self.after_cursor),
        }
    }
}

/// The heap bytes that the strings of a context take.
pub open spec fn context_heap_bytes(context: CompletionRequestContext) -> int {
    option_arc_bytes(context.model().language) + arc_bytes(context.model().resource_name)
        + option_arc_bytes(context.model().resource_path) + arc_bytes(
        context.model().before_cursor,
    ) + arc_bytes(context.model().after_cursor)
}

/// Every string of a context.
pub open spec fn context_texts(context: CompletionRequestContext) -> Seq<Seq<char>> {
    optional_text(context.model().language) + optional_text(context.model().resource_path) + seq![
        chars_of(context.model().resource_name),
        chars_of(context.model().before_cursor),
        chars_of(context.model().after_cursor),
    ]
}

/// The parts of a request seed.
pub struct SeedModel {
    pub view: ViewId,
    pub content: ContentId,
    pub content_revision: Revision,
    pub view_revision: Revision,
    pub selection: Selection,
    pub range: CompletionTextRange,
    pub query: Arc<str>,
    pub trigger: CompletionTrigger,
    pub context: CompletionRequestContext,
}

/// What a view asks completion for, before the engine has given it an identity.
#[derive(Debug, PartialEq, Eq)]
pub struct CompletionRequestSeed {
    view: ViewId,
    content: ContentId,
    content_revision: Revision,
    view_revision: Revision,
    selection: Selection,
    range: CompletionTextRange,
    query: Arc<str>,
    trigger: CompletionTrigger,
    context: CompletionRequestContext,
}

/// The cursor stands at the end of the range, and the query fills it.
pub open spec fn seed_fits(
    selection: Selection,
    range: CompletionTextRange,
    query: Seq<char>,
) -> bool {
    &&& selection.anchor == selection.head
    &&& selection.head == range.last()
    &&& query.len() == range.last().char_index - range.first().char_index
}

impl CompletionRequestSeed {
    /// The parts of the seed.
    pub closed spec fn model(self) -> SeedModel {
        SeedModel {
            view: self.view,
            content: self.content,
            content_revision: self.content_revision,
            view_revision: self.view_revision,
            selection: self.selection,
            range: self.range,
            query: self.query,
            trigger: self.trigger,
            context: self.context,
        }
    }

    #[verifier::type_invariant]
    spec fn fits(self) -> bool {
        seed_fits(self.selection, self.range, chars_of(self.query))
    }

    /// The seed with these parts, where the selection is an empty one at the end of the range
    /// and the query has as many characters as the range.
    pub fn new<Q: Into<Arc<str>>>(
        view: ViewId,
        content: ContentId,
        content_revision: Revision,
        view_revision: Revision,
        selection: Selection,
        range: CompletionTextRange,
        query: Q,
        trigger: CompletionTrigger,
        context: CompletionRequestContext,
    ) -> (seed: Option<Self>)
        ensures
            exists|text: Arc<str>|
                #![trigger chars_of(text)]
                {
                    &&& converts_to(query, text)
                    &&& seed is Some <==> seed_fits(selection, range, chars_of(text))
                    &&& seed matches Some(seed) ==> seed.model() == (SeedModel {
                        view,
                        content,
                        content_revision,
                        view_revision,
                        selection,
                        range,
                        query: text,
                        trigger,
                        context,
                    })
                },
    {
        let query: Arc<str> = query.into();
        let valid = selection.is_empty() && selection.head == range.end() && (*query).unicode_len()
            == range.char_len();
        assert(valid == seed_fits(selection, range, chars_of(query)));
        if valid {
            Some(
                CompletionRequestSeed {
                    view,
                    content,
                    content_revision,
                    view_revision,
                    selection,
                    range,
                    query,
                    trigger,
                    context,
                },
            )
        } else {
            None
        }
    }

    pub fn view(&self) -> (view: ViewId)
        ensures
            view == self.model().view,
    {
        self.view
    }

    pub fn content(&self) -> (content: ContentId)
        ensures
            content == self.model().content,
    {
        self.content
    }

    pub fn content_revision(&self) -> (revision: Revision)
        ensures
            revision == self.model().content_revision,
    {
        self.content_revision
    }

    pub fn view_revision(&self) -> (revision: Revision)
        ensures
            revision == self.model().view_revision,
    {
        self.view_revision
    }

    pub fn selection(&self) -> (selection: Selection)
        ensures
            selection == self.model().selection,
    {
        self.selection
    }

    pub fn range(&self) -> (range: CompletionTextRange)
        ensures
            range == self.model().range,
    {
        self.range
    }

    pub fn trigger(&self) -> (trigger: &CompletionTrigger)
        ensures
            *trigger == self.model().trigger,
    {
        &self.trigger
    }

    pub fn query(&self) -> (query: &str)
        ensures
            query@ == chars_of(self.model().query),
            seed_fits(self.model().selection, self.model().range, query@),
    {
        proof {
            use_type_invariant(self);
        }
        &*self.query
    }

    pub fn context(&self) -> (context: &CompletionRequestContext)
        ensures
            *context == self.model().context,
    {
        &self.context
    }

    /// The heap bytes that the seed takes.
    pub(crate) fn estimated_heap_bytes(&self) -> (bytes: usize)
        ensures
            bytes == capped(seed_heap_bytes(*self)),
    {
        mem::size_of::<CompletionRequestSeed>().saturating_add(
            estimated_arc_bytes(&self.query),
        ).saturating_add(self.context.estimated_heap_bytes())
    }
}

impl Clone for CompletionRequestSeed {
    fn clone(&self) -> (copy: Self)
        ensures
            copy == *self,
    {
        proof {
            use_type_invariant(self);
        }
        CompletionRequestSeed {
            view: self.view,
            content: self.content,
            content_revision: self.content_revision,
            view_revision: self.view_revision,
            selection: self.selection,
            range: self.range,
            query: share(&self.query),
            trigger: self.trigger.clone(),
            context: self.context.clone(),
        }
    }
}

/// The heap bytes that a seed takes.
pub open spec fn seed_heap_bytes(seed: CompletionRequestSeed) -> int {
    size_of::<CompletionRequestSeed>() + arc_bytes(seed.model().query) + context_heap_bytes(
        seed.model().context,
    )
}

/// The parts of a request.
pub struct RequestModel {
    pub session: CompletionSessionId,
    pub epoch: RequestEpoch,
    pub seed: CompletionRequestSeed,
}

/// A request with the identity that the engine gave it.
#[derive(Debug, PartialEq, Eq)]
pub struct CompletionRequest {
    session: CompletionSessionId,
    epoch: RequestEpoch,
    seed: CompletionRequestSeed,
}

impl CompletionRequest {
    /// The parts of the request.
    pub closed spec fn model(self) -> RequestModel {
        RequestModel { session: self.session, epoch: self.epoch, seed: self.seed }
    }

    /// The request with these parts.
    pub closed spec fn of(parts: RequestModel) -> Self {
        CompletionRequest { session: parts.session, epoch: parts.epoch, seed: parts.seed }
    }

    /// The parts of the seed behind the request.
    pub open spec fn asked(self) -> SeedModel {
        self.model().seed.model()
    }

    /// The identity under which sources work on the request.
    pub open spec fn task(self) -> CompletionTaskKey {
        CompletionTaskKey { session: self.model().session, epoch: self.model().epoch }
    }

    pub fn session(&self) -> (session: CompletionSessionId)
        ensures
            session == self.model().session,
    {
        self.session
    }

    pub fn view(&self) -> (view: ViewId)
        ensures
            view == self.asked().view,
    {
        self.seed.view()
    }

    pub fn content(&self) -> (content: ContentId)
        ensures
            content == self.asked().content,
    {
        self.seed.content()
    }

    pub fn content_revision(&self) -> (revision: Revision)
        ensures
            revision == self.asked().content_revision,
    {
        self.seed.content_revision()
    }

    pub fn view_revision(&self) -> (revision: Revision)
        ensures
            revision == self.asked().view_revision,
    {
        self.seed.view_revision()
    }

    pub fn selection(&self) -> (selection: Selection)
        ensures
            selection == self.asked().selection,
    {
        self.seed.selection()
    }

    pub fn range(&self) -> (range: CompletionTextRange)
        ensures
            range == self.asked().range,
    {
        self.seed.range()
    }

    pub fn query(&self) -> (query: &str)
        ensures
            query@ == chars_of(self.asked().query),
    {
        self.seed.query()
    }

    pub fn trigger(&self) -> (trigger: &CompletionTrigger)
        ensures
            *trigger == self.asked().trigger,
    {
        self.seed.trigger()
    }

    pub fn epoch(&self) -> (epoch: RequestEpoch)
        ensures
            epoch == self.model().epoch,
    {
        self.epoch
    }

    pub fn context(&self) -> (context: &CompletionRequestContext)
        ensures
            *context == self.asked().context,
    {
        self.seed.context()
    }

    pub fn task_key(&self) -> (task: CompletionTaskKey)
        ensures
            task == self.task(),
    {
        CompletionTaskKey { session: self.session, epoch: self.epoch }
    }

    /// The key under which `source` answers this request.
    pub fn source_key(&self, source: CompletionSourceKey) -> (key: SourceRequestKey)
        ensures
            key == SourceRequestKey::of(
                (SourceKeyModel { view: self.asked().view, task: self.task(), source }),
            ),
            key.model() == (SourceKeyModel { view: self.asked().view, task: self.task(), source }),
    {
        SourceRequestKey { view: self.view(), task: self.task_key(), source }
    }

    /// A probe that tells which texts match the query.
    pub fn preview_probe(&self) -> (probe: CompletionPreviewProbe)
        ensures
            probe.valid(),
            probe.asked() == chars_of(self.asked().query),
    {
        CompletionPreviewProbe::new(self.query())
    }

    pub(crate) fn from_seed(
        session: CompletionSessionId,
        epoch: RequestEpoch,
        seed: CompletionRequestSeed,
    ) -> (request: Self)
        ensures
            request == Self::of((RequestModel { session, epoch, seed })),
            request.model() == (RequestModel { session, epoch, seed }),
    {
        CompletionRequest { session, epoch, seed }
    }

    /// The heap bytes that the request takes.
    pub(crate) fn estimated_heap_bytes(&self) -> (bytes: usize)
        ensures
            bytes == capped(seed_heap_bytes(self.model().seed)),
    {
        self.seed.estimated_heap_bytes()
    }
}

impl Clone for CompletionRequest {
    fn clone(&self) -> (copy: Self)
        ensures
            copy == *self,
    {
        CompletionRequest { session: self.session, epoch: self.epoch, seed: self.seed.clone() }
    }
}

/// Identity of one request within one session.
#[derive(Clone, Copy, Debug, PartialEq, Eq, Structural, Hash)]
pub struct CompletionTaskKey {
    pub session: CompletionSessionId,
    pub epoch: RequestEpoch,
}

/// The parts of a source request key.
pub struct SourceKeyModel {
    pub view: ViewId,
    pub task: CompletionTaskKey,
    pub source: CompletionSourceKey,
}

/// Identity of the work of one source on one request.
#[derive(Debug, PartialEq, Eq, Hash)]
pub struct SourceRequestKey {
    pub(crate) view: ViewId,
    pub(crate) task: CompletionTaskKey,
    pub(crate) source: CompletionSourceKey,
}

impl SourceRequestKey {
    /// The parts of the key.
    pub closed spec fn model(self) -> SourceKeyModel {
        SourceKeyModel { view: self.view, task: self.task, source: self.source }
    }

    /// The key with these parts.
    pub closed spec fn of(parts: SourceKeyModel) -> Self {
        SourceRequestKey { view: parts.view, task: parts.task, source: parts.source }
    }

    pub fn view(&self) -> (view: ViewId)
        ensures
            view == self.model().view,
    {
        self.view
    }

    pub fn task(&self) -> (task: CompletionTaskKey)
        ensures
            task == self.model().task,
    {
        self.task
    }

    pub fn source(&self) -> (source: &CompletionSourceKey)
        ensures
            *source == self.model().source,
    {
        &self.source
    }
}

impl Clone for SourceRequestKey {
    fn clone(&self) -> (copy: Self)
        ensures
            copy == *self,
    {
        SourceRequestKey { view: self.view, task: self.task, source: self.source.clone() }
    }
}

/// An identity holds the number that it is made of.
pub broadcast proof fn lemma_session_id_of(number: u64)
    ensures
        (#[trigger] CompletionSessionId::of(number)).number() == number,
{
}

/// A source request key holds the parts that it is made of.
pub broadcast proof fn lemma_source_key_of(parts: SourceKeyModel)
    ensures
        (#[trigger] SourceRequestKey::of(parts)).model() == parts,
{
}

/// A request holds the parts that it is made of.
pub broadcast proof fn lemma_request_of(parts: RequestModel)
    ensures
        (#[trigger] CompletionRequest::of(parts)).model() == parts,
{
}

/// Identity of the work of resolving one candidate.
#[derive(Debug, PartialEq, Eq, Hash)]
pub struct ResolveRequestKey {
    pub task: CompletionTaskKey,
    pub view: ViewId,
    pub candidate: CandidateId,
}

impl Clone for ResolveRequestKey {
    fn clone(&self) -> (copy: Self)
        ensures
            copy == *self,
    {
        ResolveRequestKey { task: self.task, view: self.view, candidate: self.candidate.clone() }
    }
}

/// What a source adds to a candidate on request.
#[derive(Debug, Default, PartialEq, Eq)]
pub struct ResolveData {
    pub detail: Option<Arc<str>>,
    pub documentation: Option<Arc<str>>,
}

/// The heap bytes that resolve data takes.
pub open spec fn resolve_heap_bytes(data: ResolveData) -> int {
    option_arc_bytes(data.detail) + option_arc_bytes(data.documentation)
}

/// Every string of resolve data.
pub open spec fn resolve_texts(data: ResolveData) -> Seq<Seq<char>> {
    optional_text(data.detail) + optional_text(data.documentation)
}

impl ResolveData {
    /// The heap bytes that the data takes.
    pub(crate) fn estimated_heap_bytes(&self) -> (bytes: usize)
        ensures
            bytes == capped(resolve_heap_bytes(*self)),
    {
        estimated_option_bytes(&self.detail).saturating_add(
            estimated_option_bytes(&self.documentation),
        )
    }

    /// Every string of the data.
    pub(crate) fn strings(&self) -> (strings: Vec<&str>)
        ensures
            texts_of(strings@) == resolve_texts(*self),
    {
        let mut strings: Vec<&str> = Vec::new();
        push_option(&mut strings, &self.detail);
        push_option(&mut strings, &self.documentation);
        assert(texts_of(strings@) =~= resolve_texts(*self));
        strings
    }
}

impl Clone for ResolveData {
    fn clone(&self) -> (copy: Self)
        ensures
            copy == *self,
    {
        ResolveData {
            detail: share_option(&self.detail),
            documentation: share_option(&self.documentation),
        }
    }
}

/// One proposal of a source.
#[derive(Debug, PartialEq, Eq)]
pub struct CompletionItem {
    pub label: Arc<str>,
    pub filter_text: Option<Arc<str>>,
    pub sort_text: Option<Arc<str>>,
    pub insert_text: Arc<str>,
    pub insert_range: Option<CompletionTextRange>,
    pub source_bias: i32,
    pub detail: Option<Arc<str>>,
    pub kind: Option<Arc<str>>,
    pub group: Option<Arc<str>>,
    pub deprecated: bool,
}

/// The heap bytes that an item takes.
pub open spec fn item_heap_bytes(item: CompletionItem) -> int {
    size_of::<CompletionItem>() + arc_bytes(item.label) + option_arc_bytes(item.filter_text)
        + option_arc_bytes(item.sort_text) + arc_bytes(item.insert_text) + option_arc_bytes(
        item.detail,
    ) + option_arc_bytes(item.kind) + option_arc_bytes(item.group)
}

/// Every string of an item.
pub open spec fn item_texts(item: CompletionItem) -> Seq<Seq<char>> {
    optional_text(item.filter_text) + optional_text(item.sort_text) + optional_text(item.detail)
        + optional_text(item.kind) + optional_text(item.group) + seq![
        chars_of(item.label),
        chars_of(item.insert_text),
    ]
}

impl CompletionItem {
    pub fn new<L: Into<Arc<str>>, I: Into<Arc<str>>>(label: L, insert_text: I) -> (item: Self)
        ensures
            converts_to(label, item.label),
            converts_to(insert_text, item.insert_text),
            item == (CompletionItem {
                label: item.label,
                filter_text: None,
                sort_text: None,
                insert_text: item.insert_text,
                insert_range: None,
                source_bias: 0,
                detail: None,
                kind: None,
                group: None,
                deprecated: false,
            }),
    {
        CompletionItem {
            label: label.into(),
            filter_text: None,
            sort_text: None,
            insert_text: insert_text.into(),
            insert_range: None,
            source_bias: 0,
            detail: None,
            kind: None,
            group: None,
            deprecated: false,
        }
    }

    pub fn with_filter_text<T: Into<Arc<str>>>(self, filter_text: T) -> (item: Self)
        ensures
            option_converts_to(Some(filter_text), item.filter_text),
            item == (CompletionItem { filter_text: item.filter_text, ..self }),
    {
        CompletionItem { filter_text: Some(filter_text.into()), ..self }
    }

    pub fn with_sort_text<T: Into<Arc<str>>>(self, sort_text: T) -> (item: Self)
        ensures
            option_converts_to(Some(sort_text), item.sort_text),
            item == (CompletionItem { sort_text: item.sort_text, ..self }),
    {
        CompletionItem { sort_text: Some(sort_text.into()), ..self }
    }

    pub fn with_insert_range(self, range: CompletionTextRange) -> (item: Self)
        ensures
            item == (CompletionItem { insert_range: Some(range), ..self }),
    {
        CompletionItem { insert_range: Some(range), ..self }
    }

    pub fn with_source_bias(self, source_bias: i32) -> (item: Self)
        ensures
            item == (CompletionItem { source_bias, ..self }),
    {
        CompletionItem { source_bias, ..self }
    }

    pub fn with_detail<T: Into<Arc<str>>>(self, detail: T) -> (item: Self)
        ensures
            option_converts_to(Some(detail), item.detail),
            item == (CompletionItem { detail: item.detail, ..self }),
    {
        CompletionItem { detail: Some(detail.into()), ..self }
    }

    pub fn with_kind<T: Into<Arc<str>>>(self, kind: T) -> (item: Self)
        ensures
            option_converts_to(Some(kind), item.kind),
            item == (CompletionItem { kind: item.kind, ..self }),
    {
        CompletionItem { kind: Some(kind.into()), ..self }
    }

    pub fn with_group<T: Into<Arc<str>>>(self, group: T) -> (item: Self)
        ensures
            option_converts_to(Some(group), item.group),
            item == (CompletionItem { group: item.group, ..self }),
    {
        CompletionItem { group: Some(group.into()), ..self }
    }

    pub fn deprecated(self, deprecated: bool) -> (item: Self)
        ensures
            item == (CompletionItem { deprecated, ..self }),
    {
        CompletionItem { deprecated, ..self }
    }

    /// The heap bytes that the item takes, capped at the largest machine number.
    pub fn estimated_heap_bytes(&self) -> (bytes: usize)
        ensures
            bytes == capped(item_heap_bytes(*self)),
    {
        mem::size_of::<CompletionItem>().saturating_add(
            estimated_arc_bytes(&self.label),
        ).saturating_add(estimated_option_bytes(&self.filter_text)).saturating_add(
            estimated_option_bytes(&self.sort_text),
        ).saturating_add(estimated_arc_bytes(&self.insert_text)).saturating_add(
            estimated_option_bytes(&self.detail),
        ).saturating_add(estimated_option_bytes(&self.kind)).saturating_add(
            estimated_option_bytes(&self.group),
        )
    }

    /// Every string of the item.
    pub(crate) fn strings(&self) -> (strings: Vec<&str>)
        ensures
            texts_of(strings@) == item_texts(*self),
    {
        let mut strings: Vec<&str> = Vec::new();
        push_option(&mut strings, &self.filter_text);
        push_option(&mut strings, &self.sort_text);
        push_option(&mut strings, &self.detail);
        push_option(&mut strings, &self.kind);
        push_option(&mut strings, &self.group);
        strings.push(&*self.label);
        strings.push(&*self.insert_text);
        assert(texts_of(strings@) =~= item_texts(*self));
        strings
    }
}

impl Clone for CompletionItem {
    fn clone(&self) -> (copy: Self)
        ensures
            copy == *self,
    {
        CompletionItem {
            label: share(&self.label),
            filter_text: share_option(&self.filter_text),
            sort_text: share_option(&self.sort_text),
            insert_text: share(&self.insert_text),
            insert_range: self.insert_range,
            source_bias: self.source_bias,
            detail: share_option(&self.detail),
            kind: share_option(&self.kind),
            group: share_option(&self.group),
            deprecated: self.deprecated,
        }
    }
}

/// In which directions a source has more to offer than it delivered.
#[derive(Clone, Copy, Debug, Default, PartialEq, Eq, Structural)]
pub struct IncompleteDirections {
    pub forward: bool,
    pub backward: bool,
}

/// How a batch relates to the items that its source delivered before.
#[derive(Clone, Copy, Debug, PartialEq, Eq, Structural)]
pub enum CompletionBatchKind {
    Replace,
    Append { sequence: u32 },
}

/// Items that a source delivers.
#[derive(Clone, Debug, PartialEq, Eq)]
pub struct CompletionBatch {
    pub key: SourceRequestKey,
    pub version: SourceBatchVersion,
    pub kind: CompletionBatchKind,
    pub items: Vec<CompletionItem>,
    pub is_final: bool,
    pub incomplete: IncompleteDirections,
}

impl CompletionBatch {
    /// A batch that takes the place of everything its source delivered before.
    pub fn replace(
        key: SourceRequestKey,
        version: SourceBatchVersion,
        items: Vec<CompletionItem>,
        is_final: bool,
        incomplete: IncompleteDirections,
    ) -> (batch: Self)
        ensures
            batch == (CompletionBatch {
                key,
                version,
                kind: CompletionBatchKind::Replace,
                items,
                is_final,
                incomplete,
            }),
    {
        CompletionBatch {
            key,
            version,
            kind: CompletionBatchKind::Replace,
            items,
            is_final,
            incomplete,
        }
    }

    /// A batch that adds to what its source delivered before.
    pub fn append(
        key: SourceRequestKey,
        version: SourceBatchVersion,
        sequence: u32,
        items: Vec<CompletionItem>,
        is_final: bool,
        incomplete: IncompleteDirections,
    ) -> (batch: Self)
        ensures
            batch == (CompletionBatch {
                key,
                version,
                kind: CompletionBatchKind::Append { sequence },
                items,
                is_final,
                incomplete,
            }),
    {
        CompletionBatch {
            key,
            version,
            kind: CompletionBatchKind::Append { sequence },
            items,
            is_final,
            incomplete,
        }
    }
}

/// How the selection moves through the visible candidates.
#[derive(Clone, Copy, Debug, PartialEq, Eq, Structural)]
pub enum SelectionMove {
    Next,
    Previous,
    First,
    /// No candidate is selected any more.
    Clear,
}

/// Bounds on what one engine keeps.
#[derive(Clone, Copy, Debug, PartialEq, Eq, Structural)]
pub struct CompletionLimits {
    pub max_sources: usize,
    pub max_source_key_bytes: usize,
    pub max_source_items: usize,
    pub max_source_batches: usize,
    pub max_batch_bytes: usize,
    pub max_session_items: usize,
    pub max_session_bytes: usize,
    pub max_string_bytes: usize,
    pub max_query_bytes: usize,
    pub max_context_bytes: usize,
    pub visible_items: usize,
}

/// Why limits cannot be used.
#[derive(Clone, Debug, PartialEq, Eq)]
pub struct CompletionConfigError {
    reason: &'static str,
}

impl CompletionConfigError {
    /// The reason in words.
    pub closed spec fn message(self) -> &'static str {
        self.reason
    }

    pub fn reason(&self) -> (reason: &'static str)
        ensures
            reason == self.message(),
    {
        self.reason
    }
}

impl Default for CompletionLimits {
    fn default() -> (limits: Self)
        ensures
            limits == default_limits(),
            limits.nonzero(),
            limits.consistent(),
    {
        CompletionLimits {
            max_sources: 64,
            max_source_key_bytes: 256,
            max_source_items: 100_000,
            max_source_batches: 1_024,
            max_batch_bytes: 50_331_648,
            max_session_items: 100_000,
            max_session_bytes: 67_108_864,
            max_string_bytes: 1_048_576,
            max_query_bytes: 16_384,
            max_context_bytes: 65_536,
            visible_items: 100,
        }
    }
}

/// The limits of an engine that was not told otherwise: 48 MiB for a batch, 64 MiB for a session,
/// 1 MiB for a string, 16 KiB for a query and 64 KiB for a context.
pub open spec fn default_limits() -> CompletionLimits {
    CompletionLimits {
        max_sources: 64,
        max_source_key_bytes: 256,
        max_source_items: 100_000,
        max_source_batches: 1_024,
        max_batch_bytes: 50_331_648,
        max_session_items: 100_000,
        max_session_bytes: 67_108_864,
        max_string_bytes: 1_048_576,
        max_query_bytes: 16_384,
        max_context_bytes: 65_536,
        visible_items: 100,
    }
}

impl CompletionLimits {
    /// No limit is zero.
    pub open spec fn nonzero(self) -> bool {
        &&& self.max_sources > 0
        &&& self.max_source_key_bytes > 0
        &&& self.max_source_items > 0
        &&& self.max_source_batches > 0
        &&& self.max_batch_bytes > 0
        &&& self.max_session_items > 0
        &&& self.max_session_bytes > 0
        &&& self.max_string_bytes > 0
        &&& self.max_query_bytes > 0
        &&& self.max_context_bytes > 0
        &&& self.visible_items > 0
    }

    /// What is bounded within a session is bounded by the session, and the list stays short.
    pub open spec fn consistent(self) -> bool {
        &&& self.max_batch_bytes <= self.max_session_bytes
        &&& self.max_string_bytes <= self.max_session_bytes
        &&& self.max_query_bytes <= self.max_session_bytes
        &&& self.max_context_bytes <= self.max_session_bytes
        &&& self.visible_items <= self.max_session_items
        &&& self.visible_items <= 10_000
    }

    /// The limits themselves where they can be used.
    pub(crate) fn validate(self) -> (result: Result<Self, CompletionConfigError>)
        ensures
            match result {
                Ok(limits) => limits == self && self.nonzero() && self.consistent(),
                Err(error) => if !self.nonzero() {
                    error.message() == "completion limits must be nonzero"
                } else {
                    !self.consistent() && error.message() == "completion limits are inconsistent"
                },
            },
    {
        let nonzero = self.max_sources > 0 && self.max_source_key_bytes > 0
            && self.max_source_items > 0 && self.max_source_batches > 0 && self.max_batch_bytes > 0
            && self.max_session_items > 0 && self.max_session_bytes > 0 && self.max_string_bytes > 0
            && self.max_query_bytes > 0 && self.max_context_bytes > 0 && self.visible_items > 0;
        if !nonzero {
            return Err(CompletionConfigError { reason: "completion limits must be nonzero" });
        }
        if self.max_batch_bytes > self.max_session_bytes || self.max_string_bytes
            > self.max_session_bytes || self.max_query_bytes > self.max_session_bytes
            || self.max_context_bytes > self.max_session_bytes || self.visible_items
            > self.max_session_items || self.visible_items > 10_000 {
            return Err(CompletionConfigError { reason: "completion limits are inconsistent" });
        }
        Ok(self)
    }
}

/// What happens to the engine.
#[derive(Clone, Debug, PartialEq, Eq)]
pub enum CompletionEvent {
    Trigger { request: CompletionRequestSeed, sources: Vec<CompletionSourceKey> },
    InstallBatch(CompletionBatch),
    SourceCompleted(SourceRequestKey),
    SourceFailed(SourceRequestKey),
    SourceTimedOut(SourceRequestKey),
    MoveSelection { view: ViewId, movement: SelectionMove },
    ResolveSelected { view: ViewId },
    InstallResolved { key: ResolveRequestKey, data: ResolveData },
    AcceptSelected { view: ViewId },
    AcceptanceCommitted { view: ViewId, task: CompletionTaskKey, candidate: CandidateId },
    CancelView { view: ViewId },
}

/// Everything that applying a candidate needs, frozen at the moment of acceptance.
#[derive(Clone, Debug, PartialEq, Eq)]
pub struct CompletionAcceptance {
    pub task: CompletionTaskKey,
    pub view: ViewId,
    pub content: ContentId,
    pub content_revision: Revision,
    pub view_revision: Revision,
    pub selection: Selection,
    pub candidate: CandidateId,
    pub range: CompletionTextRange,
    pub text: Arc<str>,
}

/// What a view needs to know to route keys.
#[derive(Clone, Copy, Debug, PartialEq, Eq, Structural)]
pub struct CompletionInteractionState {
    pub content: ContentId,
    pub has_selection: bool,
}

/// Where the selection of a view stands after a move.
#[derive(Clone, Debug, PartialEq, Eq)]
pub struct CompletionSelectionChange {
    pub view: ViewId,
    pub candidate: Option<CandidateId>,
    pub visible_index: Option<usize>,
}

/// What the caller has to do after an event.
#[derive(Clone, Debug, PartialEq, Eq)]
pub enum CompletionEffect {
    RequestSource { key: SourceRequestKey, request: CompletionRequest },
    CancelSource(SourceRequestKey),
    SourceFailed { key: SourceRequestKey, reason: &'static str },
    RequestResolve(ResolveRequestKey),
    Accept(CompletionAcceptance),
    SelectionChanged(CompletionSelectionChange),
    ViewChanged(ViewId),
    Ignored { view: Option<ViewId>, reason: &'static str },
    Rejected { view: Option<ViewId>, reason: &'static str },
}

/// A visible candidate.
#[derive(Clone, Debug, PartialEq, Eq)]
pub struct CompletionCandidate {
    pub id: CandidateId,
    pub label: Arc<str>,
    pub detail: Option<Arc<str>>,
    pub kind: Option<Arc<str>>,
    pub group: Option<Arc<str>>,
    pub deprecated: bool,
    pub match_positions: Arc<[usize]>,
}

/// Everything that a frontend shows of a session.
#[derive(Clone, Debug, PartialEq, Eq)]
pub struct CompletionSnapshot {
    pub request: CompletionRequest,
    pub sources: Vec<CompletionSourceKey>,
    pub candidates: Vec<CompletionCandidate>,
    pub selected: Option<CandidateId>,
    pub collecting: bool,
    pub incomplete: bool,
    pub source_faults: usize,
    pub resolved: Option<(CandidateId, ResolveData)>,
    pub source_count: usize,
    pub item_count: usize,
    pub estimated_heap_bytes: usize,
}

} // verus!
