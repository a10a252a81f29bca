use vstd::prelude::*;
use crate::epg_event::{EpgEvent, EpgEventView};
use crate::rating::RatingMap;

verus! {

/// Tag of a short event descriptor.
pub const TAG_SHORT_EVENT: u8 = 0x4D;

/// Tag of an extended event descriptor.
pub const TAG_EXTENDED_EVENT: u8 = 0x4E;

/// Tag of a parental rating descriptor. It is written for the ratings of
/// an event; in a row that is read it is carried as any other descriptor,
/// by its bytes, and its ratings are not read.
pub const TAG_PARENTAL_RATING: u8 = 0x55;

/// Status of an event that is on air.
pub const STATUS_RUNNING: u8 = 4;

/// Status of an event that is not on air.
pub const STATUS_NOT_RUNNING: u8 = 1;

/// The most bytes of one description that go into a table.
pub const MAX_TEXT_SIZE: usize = 1000;

/// The most bytes of text in one extended event descriptor.
pub const MAX_FRAGMENT_SIZE: usize = 0xF0;

/// A text as a table carries it: bytes, and the codepage they are written in.
#[derive(Debug, Clone, PartialEq, Eq)]
pub struct DvbText {
    pub codepage: u8,
    pub data: Vec<u8>,
}

impl View for DvbText {
    type V = (u8, Seq<u8>);

    /// The codepage and the bytes.
    open spec fn view(&self) -> (u8, Seq<u8>) {
        (self.codepage, self.data@)
    }
}

/// A descriptor as plain values, over the view `T` of its texts.
pub enum DescriptorView<T> {
    ShortEvent { lang: Seq<char>, name: T, text: T },
    ExtendedEvent { number: u8, last_number: u8, lang: Seq<char>, text: T },
    Raw { tag: u8, data: Seq<u8> },
}

/// One descriptor of a table row. `T` is the form in which it holds its
/// texts: `String` where they have been decoded, `DvbText` where they are
/// bytes under a codepage.
#[derive(Debug, Clone, PartialEq, Eq)]
pub enum Descriptor<T> {
    /// Title and short description in one language
    ShortEvent { lang: String, name: T, text: T },
    /// One fragment of the description in one language
    ExtendedEvent { number: u8, last_number: u8, lang: String, text: T },
    /// Any other descriptor, as its bytes
    Raw { tag: u8, data: Vec<u8> },
}

impl<T: View> View for Descriptor<T> {
    type V = DescriptorView<T::V>;

    /// The descriptor as plain values.
    open spec fn view(&self) -> DescriptorView<T::V> {
        match self {
            Descriptor::ShortEvent { lang, name, text } => DescriptorView::ShortEvent {
                lang: lang@,
                name: name@,
                text: text@,
            },
            Descriptor::ExtendedEvent {
                number,
                last_number,
                lang,
                text,
            } => DescriptorView::ExtendedEvent {
                number: *number,
                last_number: *last_number,
                lang: lang@,
                text: text@,
            },
            Descriptor::Raw { tag, data } => DescriptorView::Raw { tag: *tag, data: data@ },
        }
    }
}

impl<T> Descriptor<T> {
    /// The tag byte under which the descriptor stands in a table.
    pub fn tag(&self) -> (r: u8)
        ensures
            r == match self {
                Descriptor::ShortEvent { .. } => TAG_SHORT_EVENT,
                Descriptor::ExtendedEvent { .. } => TAG_EXTENDED_EVENT,
                Descriptor::Raw { tag, .. } => *tag,
            },
    {
        match self {
            Descriptor::ShortEvent { .. } => TAG_SHORT_EVENT,
            Descriptor::ExtendedEvent { .. } => TAG_EXTENDED_EVENT,
            Descriptor::Raw { tag, .. } => *tag,
        }
    }
}

/// The descriptors of a row as plain values.
pub open spec fn descriptors_view<T: View>(ds: Seq<Descriptor<T>>) -> Seq<DescriptorView<T::V>> {
    Seq::new(ds.len(), |i: int| ds[i]@)
}

/// A table row as plain values.
pub struct EitItemView<T> {
    pub event_id: u16,
    pub start: u64,
    pub duration: u32,
    pub status: u8,
    pub descriptors: Seq<DescriptorView<T>>,
}

/// One row of an event information table.
#[derive(Debug, Clone, PartialEq, Eq)]
pub struct EitItem<T> {
    pub event_id: u16,
    /// Start time, in seconds since the epoch
    pub start: u64,
    /// Length in seconds
    pub duration: u32,
    /// Running status
    pub status: u8,
    pub descriptors: Vec<Descriptor<T>>,
}

impl<T: View> View for EitItem<T> {
    type V = EitItemView<T::V>;

    /// The row as plain values.
    open spec fn view(&self) -> EitItemView<T::V> {
        EitItemView {
            event_id: self.event_id,
            start: self.start,
            duration: self.duration,
            status: self.status,
            descriptors: descriptors_view(self.descriptors@),
        }
    }
}

/// An event information table: the rows of one service.
#[derive(Debug, Clone, PartialEq, Eq)]
pub struct Eit<T> {
    pub table_id: u8,
    pub version: u8,
    /// Service identifier
    pub pnr: u16,
    /// Transport stream identifier
    pub tsid: u16,
    /// Identifier of the network the service comes from
    pub onid: u16,
    pub items: Vec<EitItem<T>>,
}

/// The texts of an event as bytes under its codepage, in the order of the
/// event's maps.
#[derive(Debug, Clone, PartialEq, Eq)]
pub struct EncodedTexts {
    /// For each entry of the event's titles, the title
    pub title: Vec<Vec<u8>>,
    /// For each entry of the event's titles, the short description in that
    /// language, empty where the event has none
    pub subtitle: Vec<Vec<u8>>,
    /// For each entry of the event's descriptions, the description
    pub desc: Vec<Vec<u8>>,
}

/// The bytes of each text.
pub open spec fn bytes_of(texts: Seq<Vec<u8>>) -> Seq<Seq<u8>> {
    Seq::new(texts.len(), |i: int| texts[i]@)
}

/// The running status of an event from `start` to `stop` at the time `now`.
pub open spec fn status_at(start: u64, stop: u64, now: u64) -> u8 {
    if start <= now < stop {
        STATUS_RUNNING
    } else {
        STATUS_NOT_RUNNING
    }
}

/// One short event descriptor for each title, in the order of the titles.
pub open spec fn short_events(
    title: Seq<(Seq<char>, Seq<char>)>,
    codepage: u8,
    names: Seq<Seq<u8>>,
    texts: Seq<Seq<u8>>,
) -> Seq<DescriptorView<(u8, Seq<u8>)>> {
    Seq::new(
        title.len(),
        |i: int|
            DescriptorView::ShortEvent {
                lang: title[i].0,
                name: (codepage, names[i]),
                text: (codepage, texts[i]),
            },
    )
}

/// The part of a description that goes into a table: its first
/// `MAX_TEXT_SIZE` bytes.
pub open spec fn truncated(data: Seq<u8>) -> Seq<u8> {
    if data.len() > MAX_TEXT_SIZE {
        data.take(MAX_TEXT_SIZE as int)
    } else {
        data
    }
}

/// The number of fragments into which a description is split.
pub open spec fn fragment_count(data: Seq<u8>) -> nat {
    ((truncated(data).len() + MAX_FRAGMENT_SIZE - 1) / (MAX_FRAGMENT_SIZE as int)) as nat
}

/// Fragment `k` of a description: `MAX_FRAGMENT_SIZE` bytes from
/// `k * MAX_FRAGMENT_SIZE` on, or what is left of the truncated text.
pub open spec fn fragment(data: Seq<u8>, k: int) -> Seq<u8> {
    let t = truncated(data);
    let from = k * MAX_FRAGMENT_SIZE;
    let to = if from + MAX_FRAGMENT_SIZE <= t.len() {
        from + MAX_FRAGMENT_SIZE
    } else {
        t.len() as int
    };
    t.subrange(from, to)
}

/// The fragments of a description, in order.
pub open spec fn fragments(data: Seq<u8>) -> Seq<Seq<u8>> {
    Seq::new(fragment_count(data), |k: int| fragment(data, k))
}

/// The extended event descriptors of one description: one for each
/// fragment, numbered from 0, each with the number of the last one.
pub open spec fn extended_events(lang: Seq<char>, codepage: u8, data: Seq<u8>) -> Seq<
    DescriptorView<(u8, Seq<u8>)>,
> {
    Seq::new(
        fragment_count(data),
        |k: int|
            DescriptorView::ExtendedEvent {
                number: k as u8,
                last_number: (fragment_count(data) - 1) as u8,
                lang: lang,
                text: (codepage, fragment(data, k)),
            },
    )
}

/// The extended event descriptors of all descriptions, language after
/// language in the order of `desc`.
pub open spec fn all_extended_events(
    desc: Seq<(Seq<char>, Seq<char>)>,
    codepage: u8,
    datas: Seq<Seq<u8>>,
) -> Seq<DescriptorView<(u8, Seq<u8>)>>
    decreases desc.len(),
{
    if desc.len() == 0 {
        Seq::empty()
    } else {
        all_extended_events(desc.drop_last(), codepage, datas.drop_last()) + extended_events(
            desc.last().0,
            codepage,
            datas.last(),
        )
    }
}

/// The bytes of a parental rating descriptor: for each country whose age
/// lies from 4 to 18 years, in the order of `ratings`, the three letters of
/// the country and the age less three.
pub open spec fn rating_bytes(ratings: Seq<(Seq<u8>, u8)>) -> Seq<u8>
    decreases ratings.len(),
{
    if ratings.len() == 0 {
        Seq::empty()
    } else {
        let before = rating_bytes(ratings.drop_last());
        let (country, rating) = ratings.last();
        if 4 <= rating <= 18 {
            before + country + seq![(rating - 3) as u8]
        } else {
            before
        }
    }
}

/// The parental rating descriptor of an event: one descriptor with the
/// bytes of its ratings, and none where no age lies from 4 to 18 years.
pub open spec fn rating_descriptors(ratings: Seq<(Seq<u8>, u8)>) -> Seq<
    DescriptorView<(u8, Seq<u8>)>,
> {
    if rating_bytes(ratings).len() > 0 {
        seq![DescriptorView::Raw { tag: TAG_PARENTAL_RATING, data: rating_bytes(ratings) }]
    } else {
        Seq::empty()
    }
}

/// The row that stands for `event` at the time `now`, with `title`,
/// `subtitle` and `desc` as the bytes of its texts.
pub open spec fn encode_event(
    event: EpgEventView,
    now: u64,
    title: Seq<Seq<u8>>,
    subtitle: Seq<Seq<u8>>,
    desc: Seq<Seq<u8>>,
) -> EitItemView<(u8, Seq<u8>)> {
    EitItemView {
        event_id: event.event_id,
        start: event.start,
        duration: (event.stop - event.start) as u32,
        status: status_at(event.start, event.stop, now),
        descriptors: short_events(event.title, event.codepage, title, subtitle)
            + all_extended_events(event.desc, event.codepage, desc) + rating_descriptors(
            event.parental_rating,
        ),
    }
}

/// A description has at most five fragments, none of them is empty or
/// longer than `MAX_FRAGMENT_SIZE`, and one after the other they give the
/// truncated description.
pub proof fn lemma_fragments(data: Seq<u8>)
    ensures
        fragment_count(data) <= 5,
        (fragment_count(data) == 0) == (data.len() == 0),
        forall|k: int|
            0 <= k < fragment_count(data) ==> 0 < (#[trigger] fragment(data, k)).len()
                <= MAX_FRAGMENT_SIZE,
        forall|k: int|
            0 <= k < fragment_count(data) ==> k * MAX_FRAGMENT_SIZE + (#[trigger] fragment(
                data,
                k,
            )).len() <= truncated(data).len(),
{
}

/// The texts one behind the other.
pub open spec fn joined<T>(parts: Seq<Seq<T>>) -> Seq<T>
    decreases parts.len(),
{
    if parts.len() == 0 {
        Seq::empty()
    } else {
        joined(parts.drop_last()) + parts.last()
    }
}

/// The first `n` fragments of a description, one behind the other, are the
/// part of the truncated description that they cover.
pub proof fn lemma_fragments_join(data: Seq<u8>, n: int)
    requires
        0 <= n <= fragment_count(data),
    ensures
        joined(fragments(data).take(n)) == truncated(data).take(
            if n * MAX_FRAGMENT_SIZE <= truncated(data).len() {
                n * MAX_FRAGMENT_SIZE
            } else {
                truncated(data).len() as int
            },
        ),
    decreases n,
{
    let t = truncated(data);
    if n == 0 {
        assert(fragments(data).take(0) =~= Seq::<Seq<u8>>::empty());
        assert(t.take(0) =~= Seq::<u8>::empty());
    } else {
        lemma_fragments_join(data, n - 1);
        lemma_fragments(data);
        let parts = fragments(data).take(n);
        assert(parts.drop_last() =~= fragments(data).take(n - 1));
        assert(parts.last() == fragment(data, n - 1));
        let from = (n - 1) * MAX_FRAGMENT_SIZE;
        let to = if n * MAX_FRAGMENT_SIZE <= t.len() {
            n * MAX_FRAGMENT_SIZE
        } else {
            t.len() as int
        };
        assert(from <= t.len());
        assert(t.take(from) + t.subrange(from, to) =~= t.take(to));
    }
}

/// A description that was cut into fragments comes back when the
/// fragments are put one behind the other: whole where it has no more than
/// `MAX_TEXT_SIZE` bytes, and else its first `MAX_TEXT_SIZE` bytes.
pub proof fn lemma_fragments_rejoin(data: Seq<u8>)
    ensures
        joined(fragments(data)) == truncated(data),
        data.len() <= MAX_TEXT_SIZE ==> joined(fragments(data)) == data,
{
    lemma_fragments_join(data, fragment_count(data) as int);
    assert(fragments(data).take(fragment_count(data) as int) =~= fragments(data));
    assert(truncated(data).take(truncated(data).len() as int) =~= truncated(data));
}

/// A copy of the bytes of `data` from `from` up to `to`.
pub fn copy_bytes(data: &[u8], from: usize, to: usize) -> (r: Vec<u8>)
    requires
        from <= to <= data@.len(),
    ensures
        r@ == data@.subrange(from as int, to as int),
{
    let mut r: Vec<u8> = Vec::new();
    let mut i: usize = from;
    while i < to
        invariant
            from <= i <= to <= data@.len(),
            r@ == data@.subrange(from as int, i as int),
        decreases to - i,
    {
        r.push(data[i]);
        i += 1;
        assert(r@ =~= data@.subrange(from as int, i as int));
    }
    r
}

/// Cuts a description into the texts of its extended event descriptors.
pub fn split_text(data: &[u8]) -> (r: Vec<Vec<u8>>)
    ensures
        bytes_of(r@) == fragments(data@),
{
    let end: usize = if data.len() > MAX_TEXT_SIZE {
        MAX_TEXT_SIZE
    } else {
        data.len()
    };
    assert(truncated(data@).len() == end);
    let mut r: Vec<Vec<u8>> = Vec::new();
    let mut from: usize = 0;
    proof {
        lemma_fragments(data@);
    }
    while from < end
        invariant
            end == truncated(data@).len(),
            end <= data@.len(),
            end <= MAX_TEXT_SIZE,
            from <= end || from == r@.len() * MAX_FRAGMENT_SIZE,
            from == r@.len() * MAX_FRAGMENT_SIZE || from == end,
            r@.len() <= fragment_count(data@),
            from == end ==> r@.len() == fragment_count(data@),
            forall|k: int| 0 <= k < r@.len() ==> (#[trigger] r@[k])@ == fragment(data@, k),
        decreases end - from,
    {
        let to: usize = if end - from > MAX_FRAGMENT_SIZE {
            from + MAX_FRAGMENT_SIZE
        } else {
            end
        };
        let ghost k = r@.len() as int;
        let piece = copy_bytes(data, from, to);
        assert(piece@ =~= fragment(data@, k));
        r.push(piece);
        from = to;
    }
    assert(bytes_of(r@) =~= fragments(data@));
    r
}

/// A copy of a text.
pub fn copy_string(s: &String) -> (r: String)
    ensures
        r@ == s@,
{
    s.clone()
}

/// Puts the extended event descriptors of one description behind `out`.
pub fn push_extended_events(
    out: &mut Vec<Descriptor<DvbText>>,
    lang: &String,
    codepage: u8,
    data: &[u8],
)
    ensures
        descriptors_view(final(out)@) == descriptors_view(old(out)@) + extended_events(
            lang@,
            codepage,
            data@,
        ),
{
    let pieces = split_text(data);
    proof {
        lemma_fragments(data@);
    }
    let count = pieces.len();
    assert(bytes_of(pieces@).len() == count);
    let mut k: usize = 0;
    while k < count
        invariant
            k <= count,
            count == pieces@.len(),
            count == fragment_count(data@),
            count <= 5,
            bytes_of(pieces@) == fragments(data@),
            descriptors_view(out@) == descriptors_view(old(out)@) + extended_events(
                lang@,
                codepage,
                data@,
            ).take(k as int),
        decreases count - k,
    {
        let ghost before = descriptors_view(out@);
        let piece = copy_bytes(pieces[k].as_slice(), 0, pieces[k].len());
        assert(piece@ =~= pieces@[k as int]@);
        assert(bytes_of(pieces@)[k as int] == fragment(data@, k as int));
        let d = Descriptor::ExtendedEvent {
            number: k as u8,
            last_number: (count - 1) as u8,
            lang: copy_string(lang),
            text: DvbText { codepage, data: piece },
        };
        assert(d@ == extended_events(lang@, codepage, data@)[k as int]);
        out.push(d);
        k += 1;
        assert(descriptors_view(out@) =~= before.push(d@));
        assert(extended_events(lang@, codepage, data@).take(k as int) =~= extended_events(
            lang@,
            codepage,
            data@,
        ).take(k - 1).push(d@));
    }
    assert(extended_events(lang@, codepage, data@).take(count as int) =~= extended_events(
        lang@,
        codepage,
        data@,
    ));
}

/// The running status of an event from `start` to `stop` at the time
/// `now`: running from its start on and before its stop, else not running.
pub fn running_status(start: u64, stop: u64, now: u64) -> (r: u8)
    ensures
        r == status_at(start, stop, now),
{
    if now >= start && now < stop {
        STATUS_RUNNING
    } else {
        STATUS_NOT_RUNNING
    }
}

/// The bytes of the parental rating descriptor of the ratings.
pub fn rating_data(ratings: &RatingMap) -> (r: Vec<u8>)
    ensures
        r@ == rating_bytes(ratings@),
{
    let mut r: Vec<u8> = Vec::new();
    let count = ratings.len();
    let mut i: usize = 0;
    assert(ratings@.take(0) =~= Seq::empty());
    while i < count
        invariant
            i <= count,
            count == ratings@.len(),
            r@ == rating_bytes(ratings@.take(i as int)),
        decreases count - i,
    {
        proof {
            assert(ratings@.take(i + 1).drop_last() =~= ratings@.take(i as int));
            assert(ratings@.take(i + 1).last() == ratings@[i as int]);
        }
        let entry = ratings.entry_at(i);
        if entry.rating >= 4 && entry.rating <= 18 {
            let ghost before = r@;
            r.push(entry.country[0]);
            r.push(entry.country[1]);
            r.push(entry.country[2]);
            r.push(entry.rating - 3);
            assert(r@ =~= before + entry.country@ + seq![(entry.rating - 3) as u8]);
        }
        i += 1;
    }
    assert(ratings@.take(count as int) =~= ratings@);
    r
}

impl EitItem<DvbText> {
    /// The row that stands for `event` at the time `now`. The texts of the
    /// event come as bytes in `encoded`; they go into the descriptors under
    /// the event's codepage. Each title gives a short event descriptor, each
    /// description its extended event descriptors, and the ratings from 4
    /// to 18 years one parental rating descriptor.
    pub fn from_encoded(event: &EpgEvent, now: u64, encoded: &EncodedTexts) -> (item: Self)
        requires
            event.start <= event.stop,
            event.stop - event.start <= u32::MAX,
            encoded.title@.len() == event.title@.len(),
            encoded.subtitle@.len() == event.title@.len(),
            encoded.desc@.len() == event.desc@.len(),
        ensures
            item@ == encode_event(
                event@,
                now,
                bytes_of(encoded.title@),
                bytes_of(encoded.subtitle@),
                bytes_of(encoded.desc@),
            ),
    {
        let status = running_status(event.start, event.stop, now);
        let codepage = event.codepage;
        let mut descriptors: Vec<Descriptor<DvbText>> = Vec::new();
        let ghost shorts = short_events(
            event.title@,
            codepage,
            bytes_of(encoded.title@),
            bytes_of(encoded.subtitle@),
        );
        let titles = event.title.len();
        let mut i: usize = 0;
        while i < titles
            invariant
                i <= titles,
                titles == event.title@.len(),
                encoded.title@.len() == titles,
                encoded.subtitle@.len() == titles,
                codepage == event.codepage,
                shorts == short_events(
                    event.title@,
                    codepage,
                    bytes_of(encoded.title@),
                    bytes_of(encoded.subtitle@),
                ),
                descriptors_view(descriptors@) == shorts.take(i as int),
            decreases titles - i,
        {
            let ghost before = descriptors_view(descriptors@);
            let name = copy_bytes(encoded.title[i].as_slice(), 0, encoded.title[i].len());
            let text = copy_bytes(encoded.subtitle[i].as_slice(), 0, encoded.subtitle[i].len());
            assert(name@ =~= encoded.title@[i as int]@);
            assert(text@ =~= encoded.subtitle@[i as int]@);
            let d = Descriptor::ShortEvent {
                lang: copy_string(event.title.lang_at(i)),
                name: DvbText { codepage, data: name },
                text: DvbText { codepage, data: text },
            };
            assert(d@ == shorts[i as int]);
            descriptors.push(d);
            i += 1;
            assert(descriptors_view(descriptors@) =~= before.push(d@));
            assert(shorts.take(i as int) =~= shorts.take(i - 1).push(d@));
        }
        assert(shorts.take(titles as int) =~= shorts);
        let descs = event.desc.len();
        let mut j: usize = 0;
        assert(event.desc@.take(0).len() == 0);
        while j < descs
            invariant
                j <= descs,
                descs == event.desc@.len(),
                encoded.desc@.len() == descs,
                codepage == event.codepage,
                descriptors_view(descriptors@) == shorts + all_extended_events(
                    event.desc@.take(j as int),
                    codepage,
                    bytes_of(encoded.desc@).take(j as int),
                ),
            decreases descs - j,
        {
            let ghost before = descriptors_view(descriptors@);
            push_extended_events(
                &mut descriptors,
                event.desc.lang_at(j),
                codepage,
                encoded.desc[j].as_slice(),
            );
            proof {
                let d1 = event.desc@.take(j + 1);
                let b1 = bytes_of(encoded.desc@).take(j + 1);
                assert(d1.drop_last() =~= event.desc@.take(j as int));
                assert(b1.drop_last() =~= bytes_of(encoded.desc@).take(j as int));
                assert(d1.last() == event.desc@[j as int]);
                assert(b1.last() == encoded.desc@[j as int]@);
                assert(descriptors_view(descriptors@) =~= shorts + all_extended_events(
                    d1,
                    codepage,
                    b1,
                ));
            }
            j += 1;
        }
        assert(event.desc@.take(descs as int) =~= event.desc@);
        assert(bytes_of(encoded.desc@).take(descs as int) =~= bytes_of(encoded.desc@));
        let ghost texts = descriptors_view(descriptors@);
        let data = rating_data(&event.parental_rating);
        if data.len() > 0 {
            let d = Descriptor::Raw { tag: TAG_PARENTAL_RATING, data };
            descriptors.push(d);
            assert(descriptors_view(descriptors@) =~= texts + rating_descriptors(
                event.parental_rating@,
            ));
        } else {
            assert(texts + rating_descriptors(event.parental_rating@) =~= texts);
        }
        EitItem {
            event_id: event.event_id,
            start: event.start,
            duration: (event.stop - event.start) as u32,
            status,
            descriptors,
        }
    }
}

} // verus!
