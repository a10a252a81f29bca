use vstd::prelude::*;
use crate::eit::{
    lemma_fragments,
    lemma_fragments_join,
    truncated,
    MAX_FRAGMENT_SIZE,
    MAX_TEXT_SIZE,
    all_extended_events,
    encode_event,
    extended_events,
    fragment,
    fragment_count,
    joined,
    rating_descriptors,
    short_events,
    DescriptorView,
    EitItemView,
};
use crate::epg_event::{
    decode_descs,
    decode_event,
    decode_subtitles,
    decode_titles,
    subtitle_or_empty,
    EpgEventView,
};
use crate::text_map::{
    distinct_keys,
    extend,
    has_key,
    key_index,
    lemma_key_index,
    lemma_put,
    lookup,
    put,
};

verus! {

/// The descriptors with their texts decoded: `codec` says which text the
/// bytes under a codepage stand for.
pub open spec fn decoded_by(
    wire: Seq<DescriptorView<(u8, Seq<u8>)>>,
    codec: spec_fn((u8, Seq<u8>)) -> Seq<char>,
) -> Seq<DescriptorView<Seq<char>>> {
    Seq::new(
        wire.len(),
        |i: int|
            match wire[i] {
                DescriptorView::ShortEvent { lang, name, text } => DescriptorView::ShortEvent {
                    lang: lang,
                    name: codec(name),
                    text: codec(text),
                },
                DescriptorView::ExtendedEvent {
                    number,
                    last_number,
                    lang,
                    text,
                } => DescriptorView::ExtendedEvent {
                    number: number,
                    last_number: last_number,
                    lang: lang,
                    text: codec(text),
                },
                DescriptorView::Raw { tag, data } => DescriptorView::Raw { tag: tag, data: data },
            },
    )
}

/// The row with the texts of its descriptors decoded.
pub open spec fn decoded_item(
    item: EitItemView<(u8, Seq<u8>)>,
    codec: spec_fn((u8, Seq<u8>)) -> Seq<char>,
) -> EitItemView<Seq<char>> {
    EitItemView {
        event_id: item.event_id,
        start: item.start,
        duration: item.duration,
        status: item.status,
        descriptors: decoded_by(item.descriptors, codec),
    }
}

/// The texts that the fragments of a description stand for.
pub open spec fn fragment_texts(
    data: Seq<u8>,
    codepage: u8,
    codec: spec_fn((u8, Seq<u8>)) -> Seq<char>,
) -> Seq<Seq<char>> {
    Seq::new(fragment_count(data), |k: int| codec((codepage, fragment(data, k))))
}

/// Whether the texts of `event` come back from the bytes `title`,
/// `subtitle` and `desc`: the codec gives for the bytes of each title and
/// short description the text itself, and for the fragments of each
/// description texts that make up the description.
pub open spec fn codec_restores(
    event: EpgEventView,
    title: Seq<Seq<u8>>,
    subtitle: Seq<Seq<u8>>,
    desc: Seq<Seq<u8>>,
    codec: spec_fn((u8, Seq<u8>)) -> Seq<char>,
) -> bool {
    &&& forall|i: int|
        0 <= i < event.title.len() ==> codec((event.codepage, #[trigger] title[i]))
            == event.title[i].1
    &&& forall|i: int|
        0 <= i < event.title.len() ==> codec((event.codepage, #[trigger] subtitle[i]))
            == subtitle_or_empty(event, event.title[i].0)
    &&& forall|j: int|
        0 <= j < event.desc.len() ==> joined(
            fragment_texts(#[trigger] desc[j], event.codepage, codec),
        ) == event.desc[j].1
}

/// Whether `event` is one that a row can hold in full: every short
/// description has a text and stands in a language that has a title, and
/// every description has a text.
pub open spec fn fits_row(event: EpgEventView) -> bool {
    &&& forall|i: int|
        0 <= i < event.subtitle.len() ==> has_key(event.title, (#[trigger] event.subtitle[i]).0)
            && event.subtitle[i].1.len() > 0
    &&& forall|j: int| 0 <= j < event.desc.len() ==> (#[trigger] event.desc[j]).1.len() > 0
}

/// Adding a text under a language that is new puts a new entry at the end;
/// adding one under the language of the last entry lengthens that entry.
pub proof fn lemma_extend_last(
    base: Seq<(Seq<char>, Seq<char>)>,
    lang: Seq<char>,
    held: Seq<char>,
    text: Seq<char>,
)
    requires
        !has_key(base, lang),
    ensures
        extend(base, lang, text) == base.push((lang, text)),
        extend(base.push((lang, held)), lang, text) == base.push((lang, held + text)),
{
    let m = base.push((lang, held));
    assert(m[base.len() as int].0 == lang);
    assert(has_key(m, lang));
    let k = key_index(m, lang);
    if k < base.len() {
        assert(base[k].0 == lang);
    }
    assert(k == base.len());
    assert(m.update(k, (lang, held + text)) =~= base.push((lang, held + text)));
}

/// Descriptors that are no short event descriptors add nothing to the
/// titles and the short descriptions.
pub proof fn lemma_titles_ignore(
    a: Seq<DescriptorView<Seq<char>>>,
    b: Seq<DescriptorView<Seq<char>>>,
)
    requires
        forall|i: int| 0 <= i < b.len() ==> !((#[trigger] b[i]) is ShortEvent),
    ensures
        decode_titles(a + b) == decode_titles(a),
        decode_subtitles(a + b) == decode_subtitles(a),
    decreases b.len(),
{
    if b.len() == 0 {
        assert(a + b =~= a);
    } else {
        assert((a + b).drop_last() =~= a + b.drop_last());
        assert((a + b).last() == b.last());
        assert(b[b.len() - 1] == b.last());
        assert forall|i: int| 0 <= i < b.drop_last().len() implies !((
        #[trigger] b.drop_last()[i]) is ShortEvent) by {
            assert(b.drop_last()[i] == b[i]);
        }
        lemma_titles_ignore(a, b.drop_last());
    }
}

/// Descriptors that hold neither titles nor texts add nothing to what the
/// descriptors before them give.
pub proof fn lemma_raw_ignored(
    a: Seq<DescriptorView<Seq<char>>>,
    b: Seq<DescriptorView<Seq<char>>>,
)
    requires
        forall|i: int| 0 <= i < b.len() ==> (#[trigger] b[i]) is Raw,
    ensures
        decode_titles(a + b) == decode_titles(a),
        decode_subtitles(a + b) == decode_subtitles(a),
        decode_descs(a + b) == decode_descs(a),
    decreases b.len(),
{
    if b.len() == 0 {
        assert(a + b =~= a);
    } else {
        assert((a + b).drop_last() =~= a + b.drop_last());
        assert((a + b).last() == b.last());
        assert(b[b.len() - 1] == b.last());
        assert forall|i: int| 0 <= i < b.drop_last().len() implies (
        #[trigger] b.drop_last()[i]) is Raw by {
            assert(b.drop_last()[i] == b[i]);
        }
        lemma_raw_ignored(a, b.drop_last());
    }
}

/// Descriptors that are no extended event descriptors give no
/// descriptions.
pub proof fn lemma_descs_none(a: Seq<DescriptorView<Seq<char>>>)
    requires
        forall|i: int| 0 <= i < a.len() ==> !((#[trigger] a[i]) is ExtendedEvent),
    ensures
        decode_descs(a) == Seq::<(Seq<char>, Seq<char>)>::empty(),
    decreases a.len(),
{
    if a.len() > 0 {
        assert(a[a.len() - 1] == a.last());
        assert forall|i: int| 0 <= i < a.drop_last().len() implies !((
        #[trigger] a.drop_last()[i]) is ExtendedEvent) by {
            assert(a.drop_last()[i] == a[i]);
        }
        lemma_descs_none(a.drop_last());
    }
}

/// The first `n` short event descriptors of an event give its first `n`
/// titles, and the short descriptions of the languages among them.
pub proof fn lemma_shorts_decode(
    event: EpgEventView,
    title: Seq<Seq<u8>>,
    subtitle: Seq<Seq<u8>>,
    desc: Seq<Seq<u8>>,
    codec: spec_fn((u8, Seq<u8>)) -> Seq<char>,
    n: int,
)
    requires
        distinct_keys(event.title),
        fits_row(event),
        codec_restores(event, title, subtitle, desc, codec),
        0 <= n <= event.title.len(),
    ensures
        decode_titles(
            decoded_by(short_events(event.title, event.codepage, title, subtitle), codec).take(n),
        ) == event.title.take(n),
        distinct_keys(
            decode_subtitles(
                decoded_by(short_events(event.title, event.codepage, title, subtitle), codec).take(
                    n,
                ),
            ),
        ),
        forall|lang: Seq<char>|
            #[trigger] lookup(
                decode_subtitles(
                    decoded_by(
                        short_events(event.title, event.codepage, title, subtitle),
                        codec,
                    ).take(n),
                ),
                lang,
            ) == if has_key(event.title.take(n), lang) {
                lookup(event.subtitle, lang)
            } else {
                None
            },
    decreases n,
{
    let shorts = decoded_by(short_events(event.title, event.codepage, title, subtitle), codec);
    if n == 0 {
        assert(shorts.take(0) =~= Seq::empty());
        assert(event.title.take(0) =~= Seq::empty());
    } else {
        lemma_shorts_decode(event, title, subtitle, desc, codec, n - 1);
        let before = shorts.take(n - 1);
        let now = shorts.take(n);
        assert(now.drop_last() =~= before);
        let lang = event.title[n - 1].0;
        let name = event.title[n - 1].1;
        let text = subtitle_or_empty(event, lang);
        assert(now.last() == DescriptorView::ShortEvent { lang: lang, name: name, text: text }) by {
            assert(codec((event.codepage, title[n - 1])) == name);
            assert(codec((event.codepage, subtitle[n - 1])) == text);
        }
        let held = event.title.take(n - 1);
        assert(!has_key(held, lang)) by {
            if has_key(held, lang) {
                let k = key_index(held, lang);
                assert(held[k] == event.title[k]);
                assert(event.title[k].0 != event.title[n - 1].0);
            }
        }
        assert(put(held, lang, name) =~= event.title.take(n));
        let subs = decode_subtitles(before);
        assert(lookup(subs, lang).is_none());
        lemma_put(subs, lang, text);
        assert forall|other: Seq<char>|
            has_key(event.title.take(n), other) == (other == lang || has_key(held, other)) by {
            if has_key(event.title.take(n), other) {
                let k = key_index(event.title.take(n), other);
                if k < n - 1 {
                    assert(held[k].0 == other);
                }
            }
            if has_key(held, other) {
                let k = key_index(held, other);
                assert(event.title.take(n)[k].0 == other);
            }
            if other == lang {
                assert(event.title.take(n)[n - 1].0 == other);
            }
        }
        if text.len() > 0 {
            assert(lookup(event.subtitle, lang) == Some(text));
        } else {
            if has_key(event.subtitle, lang) {
                let k = key_index(event.subtitle, lang);
                lemma_key_index(event.subtitle, k);
                assert(event.subtitle[k].1.len() > 0);
            }
        }
    }
}

/// The first `k` extended event descriptors of a description, behind
/// descriptors `a` that give no description in its language, add the texts
/// of their fragments as one description, and nothing where these texts are
/// all empty.
pub proof fn lemma_group_decodes(
    a: Seq<DescriptorView<Seq<char>>>,
    lang: Seq<char>,
    codepage: u8,
    data: Seq<u8>,
    codec: spec_fn((u8, Seq<u8>)) -> Seq<char>,
    k: int,
)
    requires
        !has_key(decode_descs(a), lang),
        0 <= k <= fragment_count(data),
    ensures
        decode_descs(a + decoded_by(extended_events(lang, codepage, data), codec).take(k)) == if joined(
            fragment_texts(data, codepage, codec).take(k),
        ).len() > 0 {
            decode_descs(a).push((lang, joined(fragment_texts(data, codepage, codec).take(k))))
        } else {
            decode_descs(a)
        },
    decreases k,
{
    let group = decoded_by(extended_events(lang, codepage, data), codec);
    let texts = fragment_texts(data, codepage, codec);
    if k == 0 {
        assert(a + group.take(0) =~= a);
        assert(texts.take(0) =~= Seq::<Seq<char>>::empty());
    } else {
        lemma_group_decodes(a, lang, codepage, data, codec, k - 1);
        assert((a + group.take(k)).drop_last() =~= a + group.take(k - 1));
        assert((a + group.take(k)).last() == group[k - 1]);
        assert(texts.take(k).drop_last() =~= texts.take(k - 1));
        assert(texts.take(k).last() == texts[k - 1]);
        let held = joined(texts.take(k - 1));
        lemma_extend_last(decode_descs(a), lang, held, texts[k - 1]);
        if texts[k - 1].len() == 0 {
            assert(held + texts[k - 1] =~= held);
        }
        if held.len() == 0 {
            assert(held + texts[k - 1] =~= texts[k - 1]);
        }
    }
}

/// The extended event descriptors of the descriptions of an event give the
/// descriptions.
pub proof fn lemma_extended_decode(
    desc: Seq<(Seq<char>, Seq<char>)>,
    codepage: u8,
    datas: Seq<Seq<u8>>,
    codec: spec_fn((u8, Seq<u8>)) -> Seq<char>,
)
    requires
        distinct_keys(desc),
        datas.len() == desc.len(),
        forall|j: int| 0 <= j < desc.len() ==> (#[trigger] desc[j]).1.len() > 0,
        forall|j: int|
            0 <= j < desc.len() ==> joined(fragment_texts(#[trigger] datas[j], codepage, codec))
                == desc[j].1,
    ensures
        decode_descs(decoded_by(all_extended_events(desc, codepage, datas), codec)) == desc,
    decreases desc.len(),
{
    if desc.len() > 0 {
        let head = desc.drop_last();
        let last = desc.last();
        assert forall|i: int, j: int| 0 <= i < j < head.len() implies (#[trigger] head[i]).0 != (
        #[trigger] head[j]).0 by {
            assert(head[i] == desc[i] && head[j] == desc[j]);
        }
        assert forall|j: int| 0 <= j < head.len() implies (#[trigger] head[j]).1.len() > 0 by {
            assert(head[j] == desc[j]);
        }
        assert forall|j: int| 0 <= j < head.len() implies joined(
            fragment_texts(#[trigger] datas.drop_last()[j], codepage, codec),
        ) == head[j].1 by {
            assert(datas.drop_last()[j] == datas[j]);
            assert(head[j] == desc[j]);
        }
        lemma_extended_decode(head, codepage, datas.drop_last(), codec);
        let a = decoded_by(all_extended_events(head, codepage, datas.drop_last()), codec);
        let group = decoded_by(extended_events(last.0, codepage, datas.last()), codec);
        assert(decoded_by(all_extended_events(desc, codepage, datas), codec) =~= a + group);
        assert(!has_key(head, last.0)) by {
            if has_key(head, last.0) {
                let k = key_index(head, last.0);
                assert(head[k] == desc[k]);
                assert(desc[k].0 != desc[desc.len() - 1].0);
            }
        }
        let count = fragment_count(datas.last()) as int;
        lemma_group_decodes(a, last.0, codepage, datas.last(), codec, count);
        assert(group.take(count) =~= group);
        let texts = fragment_texts(datas.last(), codepage, codec);
        assert(texts.take(count) =~= texts);
        assert(datas[desc.len() - 1] == datas.last());
        assert(desc[desc.len() - 1] == last);
        assert(head.push((last.0, last.1)) =~= desc);
    }
}

/// An event that is turned into a row and read back from it is the one
/// that it was: the times, the titles and the descriptions are the same,
/// and every language has the short description it had. This holds of an
/// event that a row can hold in full, under a codec that gives the texts
/// back.
pub proof fn lemma_round_trip(
    event: EpgEventView,
    now: u64,
    title: Seq<Seq<u8>>,
    subtitle: Seq<Seq<u8>>,
    desc: Seq<Seq<u8>>,
    codec: spec_fn((u8, Seq<u8>)) -> Seq<char>,
)
    requires
        distinct_keys(event.title),
        distinct_keys(event.subtitle),
        distinct_keys(event.desc),
        event.start <= event.stop,
        event.stop - event.start <= u32::MAX,
        title.len() == event.title.len(),
        subtitle.len() == event.title.len(),
        desc.len() == event.desc.len(),
        fits_row(event),
        codec_restores(event, title, subtitle, desc, codec),
    ensures
        ({
            let back = decode_event(
                decoded_item(encode_event(event, now, title, subtitle, desc), codec),
            );
            &&& back.start == event.start
            &&& back.stop == event.stop
            &&& back.event_id == event.event_id
            &&& back.title == event.title
            &&& back.desc == event.desc
            &&& forall|lang: Seq<char>|
                #[trigger] lookup(back.subtitle, lang) == lookup(event.subtitle, lang)
        }),
{
    let shorts = decoded_by(short_events(event.title, event.codepage, title, subtitle), codec);
    let extended = decoded_by(all_extended_events(event.desc, event.codepage, desc), codec);
    let item = encode_event(event, now, title, subtitle, desc);
    let raws = decoded_by(rating_descriptors(event.parental_rating), codec);
    assert(decoded_by(item.descriptors, codec) =~= shorts + extended + raws);
    lemma_raw_ignored(shorts + extended, raws);
    assert forall|i: int| 0 <= i < shorts.len() implies !((#[trigger] shorts[i]) is ExtendedEvent) by {}
    lemma_extended_kinds(event.desc, event.codepage, desc, codec);
    lemma_titles_ignore(shorts, extended);
    lemma_shorts_decode(event, title, subtitle, desc, codec, event.title.len() as int);
    assert(shorts.take(event.title.len() as int) =~= shorts);
    assert(event.title.take(event.title.len() as int) =~= event.title);
    lemma_descs_none(shorts);
    lemma_descs_behind(shorts, extended);
    lemma_extended_decode(event.desc, event.codepage, desc, codec);
    let back = decode_event(decoded_item(item, codec));
    assert forall|lang: Seq<char>| #[trigger]
        lookup(back.subtitle, lang) == lookup(event.subtitle, lang) by {
        if !has_key(event.title, lang) && has_key(event.subtitle, lang) {
            let k = key_index(event.subtitle, lang);
            assert(has_key(event.title, event.subtitle[k].0));
        }
    }
}

/// All extended event descriptors are extended event descriptors.
pub proof fn lemma_extended_kinds(
    desc: Seq<(Seq<char>, Seq<char>)>,
    codepage: u8,
    datas: Seq<Seq<u8>>,
    codec: spec_fn((u8, Seq<u8>)) -> Seq<char>,
)
    ensures
        forall|i: int|
            0 <= i < decoded_by(all_extended_events(desc, codepage, datas), codec).len() ==> (
            #[trigger] decoded_by(
                all_extended_events(desc, codepage, datas),
                codec,
            )[i]) is ExtendedEvent,
    decreases desc.len(),
{
    if desc.len() > 0 {
        lemma_extended_kinds(desc.drop_last(), codepage, datas.drop_last(), codec);
        let a = all_extended_events(desc.drop_last(), codepage, datas.drop_last());
        let g = extended_events(desc.last().0, codepage, datas.last());
        let all = decoded_by(all_extended_events(desc, codepage, datas), codec);
        assert forall|i: int| 0 <= i < all.len() implies (#[trigger] all[i]) is ExtendedEvent by {
            if i < a.len() {
                assert(decoded_by(a, codec)[i] is ExtendedEvent);
                assert((a + g)[i] == a[i]);
            } else {
                assert((a + g)[i] == g[i - a.len()]);
            }
        }
    }
}

/// Behind descriptors that give no description, the descriptions are those
/// of the descriptors that follow.
pub proof fn lemma_descs_behind(
    a: Seq<DescriptorView<Seq<char>>>,
    b: Seq<DescriptorView<Seq<char>>>,
)
    requires
        decode_descs(a) == Seq::<(Seq<char>, Seq<char>)>::empty(),
    ensures
        decode_descs(a + b) == decode_descs(b),
    decreases b.len(),
{
    if b.len() == 0 {
        assert(a + b =~= a);
    } else {
        assert((a + b).drop_last() =~= a + b.drop_last());
        assert((a + b).last() == b.last());
        lemma_descs_behind(a, b.drop_last());
    }
}

/// Whether the codec reads a text piece by piece: what stands for bytes
/// that follow each other is what stands for the first and then what stands
/// for the second.
pub open spec fn reads_in_pieces(codepage: u8, codec: spec_fn((u8, Seq<u8>)) -> Seq<char>) -> bool {
    forall|a: Seq<u8>, b: Seq<u8>| #[trigger]
        codec((codepage, a + b)) == codec((codepage, a)) + codec((codepage, b))
}

/// Under a codec that reads piece by piece, the texts of the first `n`
/// fragments of a description make up the text of the part of the truncated
/// description that they cover.
pub proof fn lemma_fragment_texts_join(
    data: Seq<u8>,
    codepage: u8,
    codec: spec_fn((u8, Seq<u8>)) -> Seq<char>,
    n: int,
)
    requires
        reads_in_pieces(codepage, codec),
        0 <= n <= fragment_count(data),
    ensures
        joined(fragment_texts(data, codepage, codec).take(n)) == codec(
            (
                codepage,
                truncated(data).take(
                    if n * MAX_FRAGMENT_SIZE <= truncated(data).len() {
                        n * MAX_FRAGMENT_SIZE
                    } else {
                        truncated(data).len() as int
                    },
                ),
            ),
        ),
    decreases n,
{
    let t = truncated(data);
    let texts = fragment_texts(data, codepage, codec);
    if n == 0 {
        let nothing = Seq::<u8>::empty();
        assert(t.take(0) =~= nothing);
        assert(nothing + nothing =~= nothing);
        assert(codec((codepage, nothing + nothing)) == codec((codepage, nothing)) + codec(
            (codepage, nothing),
        ));
        assert(codec((codepage, nothing)).len() == 0);
        assert(texts.take(0) =~= Seq::<Seq<char>>::empty());
        assert(codec((codepage, nothing)) =~= Seq::<char>::empty());
    } else {
        lemma_fragment_texts_join(data, codepage, codec, n - 1);
        lemma_fragments(data);
        assert(texts.take(n).drop_last() =~= texts.take(n - 1));
        assert(texts.take(n).last() == codec((codepage, fragment(data, n - 1))));
        let from = (n - 1) * MAX_FRAGMENT_SIZE;
        let to = if n * MAX_FRAGMENT_SIZE <= t.len() {
            n * MAX_FRAGMENT_SIZE
        } else {
            t.len() as int
        };
        assert(from <= t.len());
        assert(t.take(from) + fragment(data, n - 1) =~= t.take(to));
        assert(codec((codepage, t.take(from) + fragment(data, n - 1))) == codec(
            (codepage, t.take(from)),
        ) + codec((codepage, fragment(data, n - 1))));
    }
}

/// A description that is cut into fragments comes back when the fragments
/// are read: under a codec that reads piece by piece, the extended event
/// descriptors of a description give the text of its first `MAX_TEXT_SIZE`
/// bytes, which is the whole description where it is no longer; a
/// description whose bytes stand for no text gives none.
pub proof fn lemma_fragments_decode(
    lang: Seq<char>,
    codepage: u8,
    data: Seq<u8>,
    codec: spec_fn((u8, Seq<u8>)) -> Seq<char>,
)
    requires
        reads_in_pieces(codepage, codec),
    ensures
        decode_descs(decoded_by(extended_events(lang, codepage, data), codec)) == if codec(
            (codepage, truncated(data)),
        ).len() > 0 {
            seq![(lang, codec((codepage, truncated(data))))]
        } else {
            Seq::empty()
        },
{
    let count = fragment_count(data) as int;
    let group = decoded_by(extended_events(lang, codepage, data), codec);
    let texts = fragment_texts(data, codepage, codec);
    let nothing = Seq::<DescriptorView<Seq<char>>>::empty();
    lemma_fragment_texts_join(data, codepage, codec, count);
    lemma_fragments(data);
    assert(truncated(data).take(truncated(data).len() as int) =~= truncated(data));
    lemma_group_decodes(nothing, lang, codepage, data, codec, count);
    assert(nothing + group.take(count) =~= group);
    assert(texts.take(count) =~= texts);
    assert(decode_descs(nothing).push((lang, joined(texts))) =~= seq![(lang, joined(texts))]);
}

/// The first `n` short event descriptors of titles give the first `n`
/// titles, where the codec gives for the bytes of each title the title.
pub proof fn lemma_titles_decode(
    titles: Seq<(Seq<char>, Seq<char>)>,
    codepage: u8,
    title: Seq<Seq<u8>>,
    subtitle: Seq<Seq<u8>>,
    codec: spec_fn((u8, Seq<u8>)) -> Seq<char>,
    n: int,
)
    requires
        distinct_keys(titles),
        forall|i: int|
            0 <= i < titles.len() ==> codec((codepage, #[trigger] title[i])) == titles[i].1,
        0 <= n <= titles.len(),
    ensures
        decode_titles(decoded_by(short_events(titles, codepage, title, subtitle), codec).take(n))
            == titles.take(n),
    decreases n,
{
    let shorts = decoded_by(short_events(titles, codepage, title, subtitle), codec);
    if n == 0 {
        assert(shorts.take(0) =~= Seq::empty());
        assert(titles.take(0) =~= Seq::empty());
    } else {
        lemma_titles_decode(titles, codepage, title, subtitle, codec, n - 1);
        assert(shorts.take(n).drop_last() =~= shorts.take(n - 1));
        let lang = titles[n - 1].0;
        let name = titles[n - 1].1;
        assert(codec((codepage, title[n - 1])) == name);
        assert(shorts.take(n).last() == shorts[n - 1]);
        let held = titles.take(n - 1);
        assert(!has_key(held, lang)) by {
            if has_key(held, lang) {
                let k = key_index(held, lang);
                assert(held[k] == titles[k]);
                assert(titles[k].0 != titles[n - 1].0);
            }
        }
        assert(put(held, lang, name) =~= titles.take(n));
    }
}

/// An event that is turned into a row and read back from it has the times,
/// the identifier and the titles that it had. This asks of the event only
/// that it does not stop before it starts and is no longer than a row can
/// say, and of the codec only that it gives the titles back.
pub proof fn lemma_round_trip_titles(
    event: EpgEventView,
    now: u64,
    title: Seq<Seq<u8>>,
    subtitle: Seq<Seq<u8>>,
    desc: Seq<Seq<u8>>,
    codec: spec_fn((u8, Seq<u8>)) -> Seq<char>,
)
    requires
        distinct_keys(event.title),
        event.start <= event.stop,
        event.stop - event.start <= u32::MAX,
        title.len() == event.title.len(),
        forall|i: int|
            0 <= i < event.title.len() ==> codec((event.codepage, #[trigger] title[i]))
                == event.title[i].1,
    ensures
        ({
            let back = decode_event(
                decoded_item(encode_event(event, now, title, subtitle, desc), codec),
            );
            &&& back.start == event.start
            &&& back.stop == event.stop
            &&& back.event_id == event.event_id
            &&& back.title == event.title
        }),
{
    let shorts = decoded_by(short_events(event.title, event.codepage, title, subtitle), codec);
    let extended = decoded_by(all_extended_events(event.desc, event.codepage, desc), codec);
    let item = encode_event(event, now, title, subtitle, desc);
    let raws = decoded_by(rating_descriptors(event.parental_rating), codec);
    assert(decoded_by(item.descriptors, codec) =~= shorts + extended + raws);
    lemma_raw_ignored(shorts + extended, raws);
    lemma_extended_kinds(event.desc, event.codepage, desc, codec);
    lemma_titles_ignore(shorts, extended);
    lemma_titles_decode(
        event.title,
        event.codepage,
        title,
        subtitle,
        codec,
        event.title.len() as int,
    );
    assert(shorts.take(event.title.len() as int) =~= shorts);
    assert(event.title.take(event.title.len() as int) =~= event.title);
}

/// The descriptions that the extended event descriptors of `desc` stand
/// for: for each language the texts of its fragments as one text, and no
/// entry for a language whose fragments stand for no text.
pub open spec fn decoded_descs(
    desc: Seq<(Seq<char>, Seq<char>)>,
    codepage: u8,
    datas: Seq<Seq<u8>>,
    codec: spec_fn((u8, Seq<u8>)) -> Seq<char>,
) -> Seq<(Seq<char>, Seq<char>)>
    decreases desc.len(),
{
    if desc.len() == 0 {
        Seq::empty()
    } else {
        let before = decoded_descs(desc.drop_last(), codepage, datas.drop_last(), codec);
        let text = joined(fragment_texts(datas.last(), codepage, codec));
        if text.len() > 0 {
            before.push((desc.last().0, text))
        } else {
            before
        }
    }
}

/// What `decoded_descs` holds: no language twice, none that `desc` does
/// not have, and under the language of each entry of `desc` the text of its
/// fragments, where they stand for one.
pub proof fn lemma_decoded_descs(
    desc: Seq<(Seq<char>, Seq<char>)>,
    codepage: u8,
    datas: Seq<Seq<u8>>,
    codec: spec_fn((u8, Seq<u8>)) -> Seq<char>,
)
    requires
        distinct_keys(desc),
        datas.len() == desc.len(),
    ensures
        distinct_keys(decoded_descs(desc, codepage, datas, codec)),
        forall|lang: Seq<char>|
            !has_key(desc, lang) ==> !(#[trigger] has_key(
                decoded_descs(desc, codepage, datas, codec),
                lang,
            )),
        forall|j: int|
            0 <= j < desc.len() ==> lookup(
                decoded_descs(desc, codepage, datas, codec),
                (#[trigger] desc[j]).0,
            ) == if joined(fragment_texts(datas[j], codepage, codec)).len() > 0 {
                Some(joined(fragment_texts(datas[j], codepage, codec)))
            } else {
                None
            },
    decreases desc.len(),
{
    if desc.len() > 0 {
        let head = desc.drop_last();
        let last = desc.last();
        assert forall|i: int, j: int| 0 <= i < j < head.len() implies (#[trigger] head[i]).0 != (
        #[trigger] head[j]).0 by {
            assert(head[i] == desc[i] && head[j] == desc[j]);
        }
        lemma_decoded_descs(head, codepage, datas.drop_last(), codec);
        let before = decoded_descs(head, codepage, datas.drop_last(), codec);
        let now = decoded_descs(desc, codepage, datas, codec);
        let text = joined(fragment_texts(datas.last(), codepage, codec));
        assert(!has_key(head, last.0)) by {
            if has_key(head, last.0) {
                let k = key_index(head, last.0);
                assert(head[k] == desc[k]);
                assert(desc[k].0 != desc[desc.len() - 1].0);
            }
        }
        assert(!has_key(before, last.0));
        lemma_put(before, last.0, text);
        assert(put(before, last.0, text) == before.push((last.0, text)));
        assert forall|lang: Seq<char>| !has_key(desc, lang) implies !(#[trigger] has_key(
            now,
            lang,
        )) by {
            assert(desc[desc.len() - 1].0 != lang);
            if has_key(head, lang) {
                let k = key_index(head, lang);
                assert(desc[k].0 == lang);
            }
            assert(!has_key(before, lang));
            if has_key(now, lang) {
                let k = key_index(now, lang);
                if k < before.len() {
                    assert(before[k].0 == lang);
                }
            }
        }
        assert forall|j: int| 0 <= j < desc.len() implies lookup(now, (#[trigger] desc[j]).0)
            == if joined(fragment_texts(datas[j], codepage, codec)).len() > 0 {
            Some(joined(fragment_texts(datas[j], codepage, codec)))
        } else {
            None
        } by {
            if j < desc.len() - 1 {
                assert(head[j] == desc[j]);
                assert(datas.drop_last()[j] == datas[j]);
                assert(desc[j].0 != desc[desc.len() - 1].0);
            }
        }
    }
}

/// The extended event descriptors of the descriptions of an event give
/// what `decoded_descs` says, whether a description has a text or not.
pub proof fn lemma_descriptions_decode(
    desc: Seq<(Seq<char>, Seq<char>)>,
    codepage: u8,
    datas: Seq<Seq<u8>>,
    codec: spec_fn((u8, Seq<u8>)) -> Seq<char>,
)
    requires
        distinct_keys(desc),
        datas.len() == desc.len(),
    ensures
        decode_descs(decoded_by(all_extended_events(desc, codepage, datas), codec))
            == decoded_descs(desc, codepage, datas, codec),
    decreases desc.len(),
{
    if desc.len() > 0 {
        let head = desc.drop_last();
        let last = desc.last();
        assert forall|i: int, j: int| 0 <= i < j < head.len() implies (#[trigger] head[i]).0 != (
        #[trigger] head[j]).0 by {
            assert(head[i] == desc[i] && head[j] == desc[j]);
        }
        lemma_descriptions_decode(head, codepage, datas.drop_last(), codec);
        lemma_decoded_descs(head, codepage, datas.drop_last(), codec);
        let a = decoded_by(all_extended_events(head, codepage, datas.drop_last()), codec);
        let group = decoded_by(extended_events(last.0, codepage, datas.last()), codec);
        assert(decoded_by(all_extended_events(desc, codepage, datas), codec) =~= a + group);
        assert(!has_key(head, last.0)) by {
            if has_key(head, last.0) {
                let k = key_index(head, last.0);
                assert(head[k] == desc[k]);
                assert(desc[k].0 != desc[desc.len() - 1].0);
            }
        }
        let count = fragment_count(datas.last()) as int;
        lemma_group_decodes(a, last.0, codepage, datas.last(), codec, count);
        assert(group.take(count) =~= group);
        let texts = fragment_texts(datas.last(), codepage, codec);
        assert(texts.take(count) =~= texts);
    }
}

/// A description comes back from its fragments, whatever the other
/// descriptions of the event are: under a codec that reads piece by piece,
/// an event that is turned into a row and read back has under the language
/// of each description the text of the first `MAX_TEXT_SIZE` bytes of that
/// description, which are all its bytes where it has no more; a description
/// whose bytes stand for no text has no entry.
pub proof fn lemma_description_comes_back(
    event: EpgEventView,
    now: u64,
    title: Seq<Seq<u8>>,
    subtitle: Seq<Seq<u8>>,
    desc: Seq<Seq<u8>>,
    codec: spec_fn((u8, Seq<u8>)) -> Seq<char>,
    j: int,
)
    requires
        distinct_keys(event.desc),
        desc.len() == event.desc.len(),
        reads_in_pieces(event.codepage, codec),
        0 <= j < event.desc.len(),
    ensures
        ({
            let back = decode_event(
                decoded_item(encode_event(event, now, title, subtitle, desc), codec),
            );
            let text = codec((event.codepage, truncated(desc[j])));
            &&& lookup(back.desc, event.desc[j].0) == if text.len() > 0 {
                Some(text)
            } else {
                None
            }
            &&& desc[j].len() <= MAX_TEXT_SIZE ==> text == codec((event.codepage, desc[j]))
        }),
{
    let shorts = decoded_by(short_events(event.title, event.codepage, title, subtitle), codec);
    let extended = decoded_by(all_extended_events(event.desc, event.codepage, desc), codec);
    let item = encode_event(event, now, title, subtitle, desc);
    let raws = decoded_by(rating_descriptors(event.parental_rating), codec);
    assert(decoded_by(item.descriptors, codec) =~= shorts + extended + raws);
    lemma_raw_ignored(shorts + extended, raws);
    assert forall|i: int| 0 <= i < shorts.len() implies !((#[trigger] shorts[i]) is ExtendedEvent) by {}
    lemma_descs_none(shorts);
    lemma_descs_behind(shorts, extended);
    lemma_descriptions_decode(event.desc, event.codepage, desc, codec);
    lemma_decoded_descs(event.desc, event.codepage, desc, codec);
    let count = fragment_count(desc[j]) as int;
    lemma_fragment_texts_join(desc[j], event.codepage, codec, count);
    lemma_fragments(desc[j]);
    let texts = fragment_texts(desc[j], event.codepage, codec);
    assert(texts.take(count) =~= texts);
    assert(truncated(desc[j]).take(truncated(desc[j]).len() as int) =~= truncated(desc[j]));
}

} // verus!
