//! Message model: the canonical representation of a chat message, its
//! polymorphic text payload, and the ghost-level views that the contracts of
//! every aggregator are stated over.
//!
//! Timestamps are absolute seconds; a calendar day is the timestamp divided by
//! the number of seconds in a day. Callers that hold richer date types convert
//! to and from these plain values at the boundary.

use vstd::prelude::*;

verus! {

/// Seconds in one calendar day; used to truncate a timestamp to its day.
pub const SECONDS_PER_DAY: u64 = 86400;

/// A vector's deep view is its elements' deep views, index by index.
pub broadcast proof fn lemma_vec_deep_view<T: DeepView>(v: &Vec<T>)
    ensures
        (#[trigger] v.deep_view()).len() == v@.len(),
        forall|i: int| 0 <= i < v@.len() ==> v.deep_view()[i] == #[trigger] v@[i].deep_view(),
{
}

// ---------------------------------------------------------------------------
// Ghost views
// ---------------------------------------------------------------------------

/// Ghost view of a tagged text entity.
#[verifier::ext_equal]
pub ghost struct MessageEntityV {
    pub kind: Seq<char>,
    pub text: Seq<char>,
}

/// Ghost view of one text fragment.
#[verifier::ext_equal]
pub ghost enum EntityV {
    Text(Seq<char>),
    Entity(MessageEntityV),
}

/// Ghost view of a message's polymorphic text payload.
#[verifier::ext_equal]
pub ghost enum TextV {
    Plain(Seq<char>),
    Entities(Seq<EntityV>),
}

/// Ghost view of a shared contact.
#[verifier::ext_equal]
pub ghost struct ContactV {
    pub first_name: Seq<char>,
    pub last_name: Option<Seq<char>>,
    pub phone_number: Seq<char>,
}

/// Ghost view of an invoice.
#[verifier::ext_equal]
pub ghost struct InvoiceV {
    pub title: Seq<char>,
    pub description: Seq<char>,
    pub amount: i64,
    pub currency: Seq<char>,
}

/// Ghost view of one poll answer.
#[verifier::ext_equal]
pub ghost struct PollAnswerV {
    pub text: Seq<char>,
    pub voters: i64,
    pub chosen: bool,
}

/// Ghost view of a poll.
#[verifier::ext_equal]
pub ghost struct PollV {
    pub question: Seq<char>,
    pub closed: bool,
    pub total_voters: i64,
    pub answers: Seq<PollAnswerV>,
}

/// Ghost view of a giveaway.
#[verifier::ext_equal]
pub ghost struct GiveawayV {
    pub quantity: i64,
    pub months: i64,
    pub until_date: Seq<char>,
    pub channels: Seq<i64>,
}

/// Ghost view of a message: every field the analytics engine reads, plus the
/// opaque sub-structures it passes through untouched.
#[verifier::ext_equal]
pub ghost struct MsgV {
    pub id: i64,
    pub kind: Seq<char>,
    pub action: Option<Seq<char>>,
    pub date_ts: u64,
    pub from_id: Option<Seq<char>>,
    pub text: TextV,
    pub file: Option<Seq<char>>,
    pub file_name: Option<Seq<char>>,
    pub media_type: Option<Seq<char>>,
    pub duration_seconds: Option<u32>,
    pub discard_reason: Option<Seq<char>>,
    pub contact_information: Option<ContactV>,
    pub invoice_information: Option<InvoiceV>,
    pub poll: Option<PollV>,
    pub giveaway_information: Option<GiveawayV>,
}

// ---------------------------------------------------------------------------
// Executable types
// ---------------------------------------------------------------------------

/// A tagged entity inside a fragmented text payload.
pub struct MessageEntity {
    pub kind: String,
    pub text: String,
}

/// One fragment of a fragmented text payload: plain text or a tagged entity.
pub enum TextEntity {
    Text(String),
    Entity(MessageEntity),
}

/// A message's textual payload: either a single plain string or an ordered
/// sequence of fragments. Concatenating all fragment texts in order
/// reconstructs the message's effective textual content.
pub enum MessageText {
    Plain(String),
    Entities(Vec<TextEntity>),
}

/// A shared contact, carried through reports untouched.
pub struct Contact {
    pub first_name: String,
    pub last_name: Option<String>,
    pub phone_number: String,
}

/// An invoice, carried through reports untouched.
pub struct Invoice {
    pub title: String,
    pub description: String,
    pub amount: i64,
    pub currency: String,
}

/// One answer of a poll.
pub struct PollAnswer {
    pub text: String,
    pub voters: i64,
    pub chosen: bool,
}

/// A poll, carried through reports untouched.
pub struct Poll {
    pub question: String,
    pub closed: bool,
    pub total_voters: i64,
    pub answers: Vec<PollAnswer>,
}

/// A giveaway, carried through reports untouched.
pub struct Giveaway {
    pub quantity: i64,
    pub months: i64,
    pub until_date: String,
    pub channels: Vec<i64>,
}

/// An immutable chat message record. The engine reads text, sender,
/// timestamp, duration and media fields; the sub-structures at the end are
/// opaque to it.
pub struct Message {
    pub id: i64,
    pub kind: String,
    pub action: Option<String>,
    pub date_ts: u64,
    pub from_id: Option<String>,
    pub text: MessageText,
    pub file: Option<String>,
    pub file_name: Option<String>,
    pub media_type: Option<String>,
    pub duration_seconds: Option<u32>,
    pub discard_reason: Option<String>,
    pub contact_information: Option<Contact>,
    pub invoice_information: Option<Invoice>,
    pub poll: Option<Poll>,
    pub giveaway_information: Option<Giveaway>,
}

/// A chat: an identifier, a display name, a type tag, and an ordered sequence
/// of messages. Insertion order is not guaranteed to be chronological on
/// load; `retain_by_date` sorts before time-windowed aggregations run.
pub struct Chat {
    pub id: i64,
    pub name: String,
    pub kind: String,
    pub messages: Vec<Message>,
}

impl DeepView for MessageEntity {
    type V = MessageEntityV;

    open spec fn deep_view(&self) -> MessageEntityV {
        MessageEntityV { kind: self.kind@, text: self.text@ }
    }
}

impl DeepView for TextEntity {
    type V = EntityV;

    open spec fn deep_view(&self) -> EntityV {
        match self {
            TextEntity::Text(t) => EntityV::Text(t@),
            TextEntity::Entity(e) => EntityV::Entity(e.deep_view()),
        }
    }
}

impl DeepView for MessageText {
    type V = TextV;

    open spec fn deep_view(&self) -> TextV {
        match self {
            MessageText::Plain(t) => TextV::Plain(t@),
            MessageText::Entities(es) => TextV::Entities(es.deep_view()),
        }
    }
}

impl DeepView for Contact {
    type V = ContactV;

    open spec fn deep_view(&self) -> ContactV {
        ContactV {
            first_name: self.first_name@,
            last_name: self.last_name.deep_view(),
            phone_number: self.phone_number@,
        }
    }
}

impl DeepView for Invoice {
    type V = InvoiceV;

    open spec fn deep_view(&self) -> InvoiceV {
        InvoiceV {
            title: self.title@,
            description: self.description@,
            amount: self.amount,
            currency: self.currency@,
        }
    }
}

impl DeepView for PollAnswer {
    type V = PollAnswerV;

    open spec fn deep_view(&self) -> PollAnswerV {
        PollAnswerV { text: self.text@, voters: self.voters, chosen: self.chosen }
    }
}

impl DeepView for Poll {
    type V = PollV;

    open spec fn deep_view(&self) -> PollV {
        PollV {
            question: self.question@,
            closed: self.closed,
            total_voters: self.total_voters,
            answers: self.answers.deep_view(),
        }
    }
}

impl DeepView for Giveaway {
    type V = GiveawayV;

    open spec fn deep_view(&self) -> GiveawayV {
        GiveawayV {
            quantity: self.quantity,
            months: self.months,
            until_date: self.until_date@,
            channels: self.channels.deep_view(),
        }
    }
}

impl DeepView for Message {
    type V = MsgV;

    open spec fn deep_view(&self) -> MsgV {
        MsgV {
            id: self.id,
            kind: self.kind@,
            action: self.action.deep_view(),
            date_ts: self.date_ts,
            from_id: self.from_id.deep_view(),
            text: self.text.deep_view(),
            file: self.file.deep_view(),
            file_name: self.file_name.deep_view(),
            media_type: self.media_type.deep_view(),
            duration_seconds: self.duration_seconds,
            discard_reason: self.discard_reason.deep_view(),
            contact_information: self.contact_information.deep_view(),
            invoice_information: self.invoice_information.deep_view(),
            poll: self.poll.deep_view(),
            giveaway_information: self.giveaway_information.deep_view(),
        }
    }
}

// ---------------------------------------------------------------------------
// Text extraction
// ---------------------------------------------------------------------------

/// The text carried by one fragment.
pub open spec fn entity_text(e: EntityV) -> Seq<char> {
    match e {
        EntityV::Text(t) => t,
        EntityV::Entity(me) => me.text,
    }
}

/// The concatenation of all fragment texts, in order.
pub open spec fn frags_text(es: Seq<EntityV>) -> Seq<char>
    decreases es.len(),
{
    if es.len() == 0 {
        Seq::empty()
    } else {
        frags_text(es.drop_last()) + entity_text(es.last())
    }
}

/// The effective textual content of a text payload: the plain string itself,
/// or the in-order concatenation of all fragment texts.
pub open spec fn text_of(t: TextV) -> Seq<char> {
    match t {
        TextV::Plain(s) => s,
        TextV::Entities(es) => frags_text(es),
    }
}

/// The effective textual content of a message.
pub open spec fn msg_text(m: MsgV) -> Seq<char> {
    text_of(m.text)
}

/// The number of unicode characters in a message's effective text.
pub open spec fn msg_char_count(m: MsgV) -> nat {
    msg_text(m).len()
}

/// The calendar day a message falls on.
pub open spec fn day_of(m: MsgV) -> u64 {
    (m.date_ts / SECONDS_PER_DAY) as u64
}

pub struct DataPreparer;

impl DataPreparer {
    /// Flattens a message's polymorphic text representation into a single
    /// plain string: plain-string payloads are returned unchanged, fragmented
    /// payloads are concatenated fragment by fragment, in order.
    pub fn message_text_to_string(text: &MessageText) -> (res: String)
        ensures
            res@ == text_of(text.deep_view()),
    {
        match text {
            MessageText::Plain(t) => t.clone(),
            MessageText::Entities(entities) => {
                let mut result = String::new();
                let ghost es = entities.deep_view();
                let n = entities.len();
                for i in 0..n
                    invariant
                        n == entities.len(),
                        es == entities.deep_view(),
                        result@ == frags_text(es.take(i as int)),
                {
                    proof {
                        assert(es.take(i + 1).drop_last() =~= es.take(i as int));
                        assert(es.take(i + 1).last() == entities[i as int].deep_view());
                    }
                    match &entities[i] {
                        TextEntity::Text(t) => result.append(t.as_str()),
                        TextEntity::Entity(e) => result.append(e.text.as_str()),
                    }
                }
                proof {
                    assert(es.take(n as int) =~= es);
                }
                result
            }
        }
    }
}

// ---------------------------------------------------------------------------
// Cloning (verified: a clone's view equals the original's view)
// ---------------------------------------------------------------------------

impl Clone for MessageEntity {
    fn clone(&self) -> (res: Self)
        ensures
            res.deep_view() == self.deep_view(),
    {
        MessageEntity { kind: self.kind.clone(), text: self.text.clone() }
    }
}

impl Clone for TextEntity {
    fn clone(&self) -> (res: Self)
        ensures
            res.deep_view() == self.deep_view(),
    {
        match self {
            TextEntity::Text(t) => TextEntity::Text(t.clone()),
            TextEntity::Entity(e) => TextEntity::Entity(e.clone()),
        }
    }
}

impl Clone for MessageText {
    fn clone(&self) -> (res: Self)
        ensures
            res.deep_view() == self.deep_view(),
    {
        match self {
            MessageText::Plain(t) => MessageText::Plain(t.clone()),
            MessageText::Entities(es) => {
                let out = es.clone();
                proof {
                    assert forall|i: int| 0 <= i < es@.len() implies out.deep_view()[i]
                        == es.deep_view()[i] by {
                        assert(cloned::<TextEntity>(es[i], out[i]));
                        assert(out.deep_view()[i] == out@[i].deep_view());
                        assert(es.deep_view()[i] == es@[i].deep_view());
                    }
                    assert(out.deep_view() =~= es.deep_view());
                }
                MessageText::Entities(out)
            }
        }
    }
}

impl Clone for Contact {
    fn clone(&self) -> (res: Self)
        ensures
            res.deep_view() == self.deep_view(),
    {
        Contact {
            first_name: self.first_name.clone(),
            last_name: self.last_name.clone(),
            phone_number: self.phone_number.clone(),
        }
    }
}

impl Clone for Invoice {
    fn clone(&self) -> (res: Self)
        ensures
            res.deep_view() == self.deep_view(),
    {
        Invoice {
            title: self.title.clone(),
            description: self.description.clone(),
            amount: self.amount,
            currency: self.currency.clone(),
        }
    }
}

impl Clone for PollAnswer {
    fn clone(&self) -> (res: Self)
        ensures
            res.deep_view() == self.deep_view(),
    {
        PollAnswer { text: self.text.clone(), voters: self.voters, chosen: self.chosen }
    }
}

impl Clone for Poll {
    fn clone(&self) -> (res: Self)
        ensures
            res.deep_view() == self.deep_view(),
    {
        let answers = self.answers.clone();
        proof {
            assert forall|i: int| 0 <= i < self.answers@.len() implies answers.deep_view()[i]
                == self.answers.deep_view()[i] by {
                assert(cloned::<PollAnswer>(self.answers[i], answers[i]));
                assert(answers.deep_view()[i] == answers@[i].deep_view());
                assert(self.answers.deep_view()[i] == self.answers@[i].deep_view());
            }
            assert(answers.deep_view() =~= self.answers.deep_view());
        }
        Poll {
            question: self.question.clone(),
            closed: self.closed,
            total_voters: self.total_voters,
            answers,
        }
    }
}

impl Clone for Giveaway {
    fn clone(&self) -> (res: Self)
        ensures
            res.deep_view() == self.deep_view(),
    {
        let channels = self.channels.clone();
        proof {
            assert forall|i: int| 0 <= i < self.channels@.len() implies channels.deep_view()[i]
                == self.channels.deep_view()[i] by {
                assert(cloned::<i64>(self.channels[i], channels[i]));
                assert(channels.deep_view()[i] == channels@[i].deep_view());
                assert(self.channels.deep_view()[i] == self.channels@[i].deep_view());
            }
            assert(channels.deep_view() =~= self.channels.deep_view());
        }
        Giveaway {
            quantity: self.quantity,
            months: self.months,
            until_date: self.until_date.clone(),
            channels,
        }
    }
}

impl Clone for Message {
    fn clone(&self) -> (res: Self)
        ensures
            res.deep_view() == self.deep_view(),
    {
        let contact_information = self.contact_information.clone();
        let invoice_information = self.invoice_information.clone();
        let poll = self.poll.clone();
        let giveaway_information = self.giveaway_information.clone();
        proof {
            assert(contact_information.deep_view() == self.contact_information.deep_view());
            assert(invoice_information.deep_view() == self.invoice_information.deep_view());
            assert(poll.deep_view() == self.poll.deep_view());
            assert(giveaway_information.deep_view() == self.giveaway_information.deep_view());
        }
        Message {
            id: self.id,
            kind: self.kind.clone(),
            action: self.action.clone(),
            date_ts: self.date_ts,
            from_id: self.from_id.clone(),
            text: self.text.clone(),
            file: self.file.clone(),
            file_name: self.file_name.clone(),
            media_type: self.media_type.clone(),
            duration_seconds: self.duration_seconds,
            discard_reason: self.discard_reason.clone(),
            contact_information,
            invoice_information,
            poll,
            giveaway_information,
        }
    }
}

/// Appends a copy of `m`; the vector's deep view grows by `m`'s view.
pub fn push_clone(out: &mut Vec<Message>, m: &Message)
    ensures
        final(out).deep_view() == old(out).deep_view().push(m.deep_view()),
{
    let ghost pv = out.deep_view();
    let ghost pvec = out@;
    let c = m.clone();
    let ghost cv = c.deep_view();
    out.push(c);
    proof {
        assert forall|j: int| 0 <= j < out@.len() implies out.deep_view()[j]
            == pv.push(m.deep_view())[j] by {
            assert(out.deep_view()[j] == out@[j].deep_view());
            if j < pvec.len() {
                assert(out@[j] == pvec[j]);
                assert(pv[j] == pvec[j].deep_view());
            } else {
                assert(out@[j] == c);
            }
        }
        assert(out.deep_view() =~= pv.push(m.deep_view()));
    }
}

/// Inserts a copy of `m` at `pos`; the vector's deep view gains `m`'s view
/// at that position.
pub fn insert_clone(v: &mut Vec<Message>, pos: usize, m: &Message)
    requires
        pos <= old(v).len(),
    ensures
        final(v).deep_view() == old(v).deep_view().insert(pos as int, m.deep_view()),
{
    let ghost pv = v.deep_view();
    let ghost pvec = v@;
    let c = m.clone();
    let ghost cv = c.deep_view();
    v.insert(pos, c);
    proof {
        pv.insert_ensures(pos as int, m.deep_view());
        pvec.insert_ensures(pos as int, c);
        assert forall|j: int| 0 <= j < v@.len() implies v.deep_view()[j]
            == pv.insert(pos as int, m.deep_view())[j] by {
            assert(v.deep_view()[j] == v@[j].deep_view());
            if j < pos {
                assert(v@[j] == pvec[j]);
                assert(pv[j] == pvec[j].deep_view());
            } else if j == pos {
                assert(v@[j] == c);
            } else {
                assert(v@[j] == pvec[j - 1]);
                assert(pv[j - 1] == pvec[j - 1].deep_view());
            }
        }
        assert(v.deep_view() =~= pv.insert(pos as int, m.deep_view()));
    }
}

// ---------------------------------------------------------------------------
// The reporting projection of a message
// ---------------------------------------------------------------------------

/// Ghost view of a `MinimalMessage`.
#[verifier::ext_equal]
pub ghost struct MinimalV {
    pub id: i64,
    pub from_id: Option<Seq<char>>,
    pub kind: Seq<char>,
    pub text: TextV,
    pub date_ts: u64,
    pub duration_seconds: Option<u32>,
    pub discard_reason: Option<Seq<char>>,
    pub file: Option<Seq<char>>,
    pub file_name: Option<Seq<char>>,
    pub media_type: Option<Seq<char>>,
}

/// The projection of a full message down to the fields reports carry.
pub open spec fn minimal_of(m: MsgV) -> MinimalV {
    MinimalV {
        id: m.id,
        from_id: m.from_id,
        kind: m.kind,
        text: m.text,
        date_ts: m.date_ts,
        duration_seconds: m.duration_seconds,
        discard_reason: m.discard_reason,
        file: m.file,
        file_name: m.file_name,
        media_type: m.media_type,
    }
}

/// A projection of `Message` retaining only the fields needed for reporting.
/// Constructed by value-copy from a message; never mutated afterwards.
pub struct MinimalMessage {
    pub id: i64,
    pub from_id: Option<String>,
    pub kind: String,
    pub text: MessageText,
    pub date_ts: u64,
    pub duration_seconds: Option<u32>,
    pub discard_reason: Option<String>,
    pub file: Option<String>,
    pub file_name: Option<String>,
    pub media_type: Option<String>,
}

impl DeepView for MinimalMessage {
    type V = MinimalV;

    open spec fn deep_view(&self) -> MinimalV {
        MinimalV {
            id: self.id,
            from_id: self.from_id.deep_view(),
            kind: self.kind@,
            text: self.text.deep_view(),
            date_ts: self.date_ts,
            duration_seconds: self.duration_seconds,
            discard_reason: self.discard_reason.deep_view(),
            file: self.file.deep_view(),
            file_name: self.file_name.deep_view(),
            media_type: self.media_type.deep_view(),
        }
    }
}

impl vstd::std_specs::convert::FromSpecImpl<Message> for MinimalMessage {
    open spec fn obeys_from_spec() -> bool {
        true
    }

    open spec fn from_spec(v: Message) -> Self {
        MinimalMessage {
            id: v.id,
            from_id: v.from_id,
            kind: v.kind,
            text: v.text,
            date_ts: v.date_ts,
            duration_seconds: v.duration_seconds,
            discard_reason: v.discard_reason,
            file: v.file,
            file_name: v.file_name,
            media_type: v.media_type,
        }
    }
}

impl From<Message> for MinimalMessage {
    fn from(value: Message) -> (res: Self)
        ensures
            res.deep_view() == minimal_of(value.deep_view()),
    {
        MinimalMessage {
            id: value.id,
            from_id: value.from_id,
            kind: value.kind,
            text: value.text,
            date_ts: value.date_ts,
            duration_seconds: value.duration_seconds,
            discard_reason: value.discard_reason,
            file: value.file,
            file_name: value.file_name,
            media_type: value.media_type,
        }
    }
}

impl MinimalMessage {
    /// A reporting snapshot of a message, by value-copy.
    pub fn snapshot(m: &Message) -> (res: MinimalMessage)
        ensures
            res.deep_view() == minimal_of(m.deep_view()),
    {
        MinimalMessage::from(m.clone())
    }
}

} // verus!
