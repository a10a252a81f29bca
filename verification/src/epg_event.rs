use vstd::prelude::*;
use crate::eit::{copy_string, descriptors_view, Descriptor, DescriptorView, EitItem, EitItemView};
use crate::rating::RatingMap;
use crate::text_map::{extend, lookup, put, TextMap};

verus! {

/// What an event is, as plain values: the texts are pairs of language code
/// and text, in the order of their maps.
pub struct EpgEventView {
    pub event_id: u16,
    pub start: u64,
    pub stop: u64,
    pub title: Seq<(Seq<char>, Seq<char>)>,
    pub subtitle: Seq<(Seq<char>, Seq<char>)>,
    pub desc: Seq<(Seq<char>, Seq<char>)>,
    pub codepage: u8,
    pub parental_rating: Seq<(Seq<u8>, u8)>,
}

/// One scheduled programme.
#[derive(Debug, PartialEq)]
pub struct EpgEvent {
    /// Identifier of the event within its channel
    pub event_id: u16,
    /// Start time, in seconds since the epoch
    pub start: u64,
    /// Stop time, in seconds since the epoch
    pub stop: u64,
    /// Titles by language
    pub title: TextMap,
    /// Short descriptions by language
    pub subtitle: TextMap,
    /// Descriptions by language
    pub desc: TextMap,
    /// Codepage under which the texts go into a binary table
    pub codepage: u8,
    /// The age from which the programme is meant, by country
    pub parental_rating: RatingMap,
}

impl View for EpgEvent {
    type V = EpgEventView;

    /// The event as plain values.
    open spec fn view(&self) -> EpgEventView {
        EpgEventView {
            event_id: self.event_id,
            start: self.start,
            stop: self.stop,
            title: self.title@,
            subtitle: self.subtitle@,
            desc: self.desc@,
            codepage: self.codepage,
            parental_rating: self.parental_rating@,
        }
    }
}

impl Clone for EpgEvent {
    /// The same event.
    fn clone(&self) -> (r: Self)
        ensures
            r@ == self@,
    {
        EpgEvent {
            event_id: self.event_id,
            start: self.start,
            stop: self.stop,
            title: self.title.clone(),
            subtitle: self.subtitle.clone(),
            desc: self.desc.clone(),
            codepage: self.codepage,
            parental_rating: self.parental_rating.clone(),
        }
    }
}

impl Default for EpgEvent {
    /// An event without texts and ratings, with all its numbers 0.
    fn default() -> (r: Self)
        ensures
            r@ == (EpgEventView {
                event_id: 0,
                start: 0,
                stop: 0,
                title: Seq::empty(),
                subtitle: Seq::empty(),
                desc: Seq::empty(),
                codepage: 0,
                parental_rating: Seq::empty(),
            }),
    {
        EpgEvent {
            event_id: 0,
            start: 0,
            stop: 0,
            title: TextMap::new(),
            subtitle: TextMap::new(),
            desc: TextMap::new(),
            codepage: 0,
            parental_rating: RatingMap::new(),
        }
    }
}

/// The titles that a row carries: each short event descriptor puts its
/// name under its language, a later one in place of an earlier one.
pub open spec fn decode_titles(ds: Seq<DescriptorView<Seq<char>>>) -> Seq<(Seq<char>, Seq<char>)>
    decreases ds.len(),
{
    if ds.len() == 0 {
        Seq::empty()
    } else {
        let before = decode_titles(ds.drop_last());
        match ds.last() {
            DescriptorView::ShortEvent { lang, name, .. } => put(before, lang, name),
            _ => before,
        }
    }
}

/// The short descriptions that a row carries: each short event descriptor
/// with a text adds it behind what stands under its language.
pub open spec fn decode_subtitles(ds: Seq<DescriptorView<Seq<char>>>) -> Seq<
    (Seq<char>, Seq<char>),
>
    decreases ds.len(),
{
    if ds.len() == 0 {
        Seq::empty()
    } else {
        let before = decode_subtitles(ds.drop_last());
        match ds.last() {
            DescriptorView::ShortEvent { lang, text, .. } => if text.len() > 0 {
                extend(before, lang, text)
            } else {
                before
            },
            _ => before,
        }
    }
}

/// The descriptions that a row carries: each extended event descriptor
/// with a text adds it behind what stands under its language.
pub open spec fn decode_descs(ds: Seq<DescriptorView<Seq<char>>>) -> Seq<(Seq<char>, Seq<char>)>
    decreases ds.len(),
{
    if ds.len() == 0 {
        Seq::empty()
    } else {
        let before = decode_descs(ds.drop_last());
        match ds.last() {
            DescriptorView::ExtendedEvent { lang, text, .. } => if text.len() > 0 {
                extend(before, lang, text)
            } else {
                before
            },
            _ => before,
        }
    }
}

/// The event that a row with decoded texts stands for. Ratings are not
/// read from a row.
pub open spec fn decode_event(item: EitItemView<Seq<char>>) -> EpgEventView {
    EpgEventView {
        event_id: item.event_id,
        start: item.start,
        stop: (item.start + item.duration) as u64,
        title: decode_titles(item.descriptors),
        subtitle: decode_subtitles(item.descriptors),
        desc: decode_descs(item.descriptors),
        codepage: 0,
        parental_rating: Seq::empty(),
    }
}

/// The short description of an event in the language `lang`, empty where
/// it has none.
pub open spec fn subtitle_or_empty(event: EpgEventView, lang: Seq<char>) -> Seq<char> {
    match lookup(event.subtitle, lang) {
        Some(text) => text,
        None => Seq::empty(),
    }
}

/// The texts of an event that go into a row, in the order in which the row
/// takes them.
#[derive(Debug, Clone, PartialEq, Eq)]
pub struct RowTexts {
    /// The titles, in the order of their languages
    pub title: Vec<String>,
    /// For each title, the short description in its language, empty where
    /// the event has none
    pub subtitle: Vec<String>,
    /// The descriptions, in the order of their languages
    pub desc: Vec<String>,
}

impl EpgEvent {
    /// The texts of the event that go into a row: what is to be put into
    /// bytes under the event's codepage before the row is made.
    pub fn row_texts(&self) -> (r: RowTexts)
        ensures
            r.title@.len() == self.title@.len(),
            r.subtitle@.len() == self.title@.len(),
            r.desc@.len() == self.desc@.len(),
            forall|i: int|
                0 <= i < self.title@.len() ==> (#[trigger] r.title@[i])@ == self.title@[i].1,
            forall|i: int|
                0 <= i < self.title@.len() ==> (#[trigger] r.subtitle@[i])@ == subtitle_or_empty(
                    self@,
                    self.title@[i].0,
                ),
            forall|j: int|
                0 <= j < self.desc@.len() ==> (#[trigger] r.desc@[j])@ == self.desc@[j].1,
    {
        let mut title: Vec<String> = Vec::new();
        let mut subtitle: Vec<String> = Vec::new();
        let titles = self.title.len();
        let mut i: usize = 0;
        while i < titles
            invariant
                i <= titles,
                titles == self.title@.len(),
                title@.len() == i,
                subtitle@.len() == i,
                forall|k: int| 0 <= k < i ==> (#[trigger] title@[k])@ == self.title@[k].1,
                forall|k: int|
                    0 <= k < i ==> (#[trigger] subtitle@[k])@ == subtitle_or_empty(
                        self@,
                        self.title@[k].0,
                    ),
            decreases titles - i,
        {
            title.push(copy_string(self.title.text_at(i)));
            match self.subtitle.get(self.title.lang_at(i).as_str()) {
                Some(text) => subtitle.push(copy_string(text)),
                None => subtitle.push(String::new()),
            }
            i += 1;
        }
        let mut desc: Vec<String> = Vec::new();
        let descs = self.desc.len();
        let mut j: usize = 0;
        while j < descs
            invariant
                j <= descs,
                descs == self.desc@.len(),
                desc@.len() == j,
                forall|k: int| 0 <= k < j ==> (#[trigger] desc@[k])@ == self.desc@[k].1,
            decreases descs - j,
        {
            desc.push(copy_string(self.desc.text_at(j)));
            j += 1;
        }
        RowTexts { title, subtitle, desc }
    }

    /// The event that the row `item` stands for. A short event descriptor
    /// sets the title of its language and adds its text, where it has one, to
    /// the short description; an extended event descriptor adds its text to
    /// the description. Other descriptors are passed over.
    pub fn from_eit_item(item: &EitItem<String>) -> (event: Self)
        requires
            item.start + item.duration <= u64::MAX,
        ensures
            event@ == decode_event(item@),
    {
        let mut title = TextMap::new();
        let mut subtitle = TextMap::new();
        let mut desc = TextMap::new();
        let ghost ds = descriptors_view(item.descriptors@);
        let count = item.descriptors.len();
        let mut i: usize = 0;
        assert(ds.take(0) =~= Seq::empty());
        while i < count
            invariant
                i <= count,
                count == item.descriptors@.len(),
                ds == descriptors_view(item.descriptors@),
                title@ == decode_titles(ds.take(i as int)),
                subtitle@ == decode_subtitles(ds.take(i as int)),
                desc@ == decode_descs(ds.take(i as int)),
            decreases count - i,
        {
            proof {
                assert(ds.take(i + 1).drop_last() =~= ds.take(i as int));
                assert(ds.take(i + 1).last() == item.descriptors@[i as int]@);
            }
            match &item.descriptors[i] {
                Descriptor::ShortEvent { lang, name, text } => {
                    title.insert(copy_string(lang), copy_string(name));
                    if !text.as_str().is_empty() {
                        subtitle.push_text(copy_string(lang), text.as_str());
                    }
                },
                Descriptor::ExtendedEvent { lang, text, .. } => {
                    if !text.as_str().is_empty() {
                        desc.push_text(copy_string(lang), text.as_str());
                    }
                },
                Descriptor::Raw { .. } => {},
            }
            i += 1;
        }
        assert(ds.take(count as int) =~= ds);
        EpgEvent {
            event_id: item.event_id,
            start: item.start,
            stop: item.start + item.duration as u64,
            title,
            subtitle,
            desc,
            codepage: 0,
            parental_rating: RatingMap::new(),
        }
    }
}

} // verus!
