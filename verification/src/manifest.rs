//! The manifest: for each input, under each variant, which outputs exist.
//!
//! Entries are kept in the order in which they were first written. What the
//! manifest says is its view: maps from names to what is filed under them.

use vstd::prelude::*;
use vstd::string::StringExecFns;

verus! {

/// The map that a list of keyed entries stands for. Of two entries with one
/// key the later one counts.
pub open spec fn map_of<T>(entries: Seq<(Seq<char>, T)>) -> Map<Seq<char>, T>
    decreases entries.len(),
{
    if entries.len() == 0 {
        Map::empty()
    } else {
        map_of(entries.drop_last()).insert(entries.last().0, entries.last().1)
    }
}

/// Whether an entry has the key.
pub open spec fn has_key<T>(entries: Seq<(Seq<char>, T)>, key: Seq<char>) -> bool {
    exists|i: int| 0 <= i < entries.len() && (#[trigger] entries[i]).0 == key
}

/// Whether no two entries have one key.
pub open spec fn distinct_keys<T>(entries: Seq<(Seq<char>, T)>) -> bool {
    forall|i: int, j: int|
        0 <= i < j < entries.len() ==> (#[trigger] entries[i]).0 != (#[trigger] entries[j]).0
}

/// The map has exactly the keys of the entries.
pub proof fn lemma_map_of_keys<T>(entries: Seq<(Seq<char>, T)>)
    ensures
        forall|key: Seq<char>| #[trigger] map_of(entries).dom().contains(key) <==> has_key(entries, key),
    decreases entries.len(),
{
    if entries.len() > 0 {
        let rest = entries.drop_last();
        lemma_map_of_keys(rest);
        assert forall|key: Seq<char>| #[trigger] map_of(entries).dom().contains(key) <==> has_key(
            entries,
            key,
        ) by {
            assert(map_of(entries) == map_of(rest).insert(entries.last().0, entries.last().1));
            if has_key(entries, key) {
                let i = choose|i: int| 0 <= i < entries.len() && (#[trigger] entries[i]).0 == key;
                if i < rest.len() {
                    assert(rest[i].0 == key);
                    assert(has_key(rest, key));
                    assert(map_of(rest).dom().contains(key));
                } else {
                    assert(key == entries.last().0);
                }
                assert(map_of(entries).dom().contains(key));
            }
            if map_of(entries).dom().contains(key) {
                if key == entries.last().0 {
                    assert(entries[entries.len() - 1].0 == key);
                } else {
                    assert(map_of(rest).dom().contains(key));
                    assert(has_key(rest, key));
                    let i = choose|i: int| 0 <= i < rest.len() && (#[trigger] rest[i]).0 == key;
                    assert(entries[i].0 == key);
                }
            }
        }
    }
}

/// Where no two entries have one key, each entry is what the map holds under
/// its key.
pub proof fn lemma_map_of_entry<T>(entries: Seq<(Seq<char>, T)>, i: int)
    requires
        distinct_keys(entries),
        0 <= i < entries.len(),
    ensures
        map_of(entries).dom().contains(entries[i].0),
        map_of(entries)[entries[i].0] == entries[i].1,
    decreases entries.len(),
{
    let rest = entries.drop_last();
    if i < entries.len() - 1 {
        assert(rest[i] == entries[i]);
        assert(entries[i].0 != entries[entries.len() - 1].0);
        assert forall|a: int, b: int| 0 <= a < b < rest.len() implies (#[trigger] rest[a]).0 != (#[trigger] rest[b]).0 by {
            assert(rest[a] == entries[a] && rest[b] == entries[b]);
        }
        lemma_map_of_entry(rest, i);
    }
}

/// An entry written at the end is an insertion into the map.
pub proof fn lemma_map_of_push<T>(entries: Seq<(Seq<char>, T)>, key: Seq<char>, value: T)
    ensures
        map_of(entries.push((key, value))) == map_of(entries).insert(key, value),
{
    assert(entries.push((key, value)).drop_last() =~= entries);
}

/// Where no two entries have one key, a new value for an entry is an
/// insertion into the map.
pub proof fn lemma_map_of_update<T>(entries: Seq<(Seq<char>, T)>, i: int, value: T)
    requires
        distinct_keys(entries),
        0 <= i < entries.len(),
    ensures
        distinct_keys(entries.update(i, (entries[i].0, value))),
        map_of(entries.update(i, (entries[i].0, value))) == map_of(entries).insert(
            entries[i].0,
            value,
        ),
{
    let key = entries[i].0;
    let after = entries.update(i, (key, value));
    assert forall|a: int, b: int| 0 <= a < b < after.len() implies (#[trigger] after[a]).0 != (#[trigger] after[b]).0 by {
        assert(after[a].0 == entries[a].0 && after[b].0 == entries[b].0);
    }
    lemma_map_of_keys(entries);
    lemma_map_of_keys(after);
    let left = map_of(after);
    let right = map_of(entries).insert(key, value);
    assert forall|k: Seq<char>| left.dom().contains(k) <==> right.dom().contains(k) by {
        if has_key(after, k) {
            let j = choose|j: int| 0 <= j < after.len() && (#[trigger] after[j]).0 == k;
            assert(entries[j].0 == k);
            assert(has_key(entries, k));
        }
        if has_key(entries, k) {
            let j = choose|j: int| 0 <= j < entries.len() && (#[trigger] entries[j]).0 == k;
            assert(after[j].0 == k);
            assert(has_key(after, k));
        }
        if k == key {
            assert(after[i].0 == k);
            assert(has_key(after, k));
        }
    }
    assert forall|k: Seq<char>| left.dom().contains(k) implies left[k] == right[k] by {
        let j = choose|j: int| 0 <= j < after.len() && (#[trigger] after[j]).0 == k;
        lemma_map_of_entry(after, j);
        if j != i {
            assert(entries[j].0 == k);
            lemma_map_of_entry(entries, j);
            if j < i {
                assert(entries[j].0 != entries[i].0);
            } else {
                assert(entries[i].0 != entries[j].0);
            }
        }
    }
    assert(left =~= right);
}

/// One output: the key of its density, and where it was written.
#[derive(Debug, Clone)]
pub struct Output {
    pub label: String,
    pub path: String,
}

/// The outputs of one media type.
#[derive(Debug, Clone)]
pub struct FormatOutputs {
    pub mime: String,
    pub outputs: Vec<Output>,
}

/// A variant of an input: its size at a density of one, and its outputs by
/// media type.
#[derive(Debug, Clone)]
pub struct Variant {
    pub name: String,
    pub width: u32,
    pub height: u32,
    pub formats: Vec<FormatOutputs>,
}

/// The variants of one input.
#[derive(Debug, Clone)]
pub struct ImageEntry {
    pub path: String,
    pub variants: Vec<Variant>,
}

/// For each input, under each variant, the outputs that exist.
#[derive(Debug, Clone)]
pub struct Manifest {
    pub images: Vec<ImageEntry>,
}

/// What a variant says.
pub struct VariantView {
    pub width: nat,
    pub height: nat,
    /// From media type to the outputs of that type, each under the key of its
    /// density.
    pub formats: Map<Seq<char>, Map<Seq<char>, Seq<char>>>,
}

/// The outputs as keyed entries: the key of the density, then the path.
pub open spec fn output_entries(s: Seq<Output>) -> Seq<(Seq<char>, Seq<char>)> {
    Seq::new(s.len(), |i: int| (s[i].label@, s[i].path@))
}

/// From the key of a density to the path of the output.
pub open spec fn outputs_view(s: Seq<Output>) -> Map<Seq<char>, Seq<char>> {
    map_of(output_entries(s))
}

/// Whether no key of a density occurs twice.
pub open spec fn outputs_wf(s: Seq<Output>) -> bool {
    distinct_keys(output_entries(s))
}

/// The media types as keyed entries: the type, then its outputs.
pub open spec fn format_entries(s: Seq<FormatOutputs>) -> Seq<
    (Seq<char>, Map<Seq<char>, Seq<char>>),
> {
    Seq::new(s.len(), |i: int| (s[i].mime@, outputs_view(s[i].outputs@)))
}

/// From media type to outputs.
pub open spec fn formats_view(s: Seq<FormatOutputs>) -> Map<Seq<char>, Map<Seq<char>, Seq<char>>> {
    map_of(format_entries(s))
}

/// Whether no media type occurs twice, nor a key under one of them.
pub open spec fn formats_wf(s: Seq<FormatOutputs>) -> bool {
    &&& distinct_keys(format_entries(s))
    &&& forall|i: int| 0 <= i < s.len() ==> outputs_wf((#[trigger] s[i]).outputs@)
}

/// What a variant says.
pub open spec fn variant_view(v: Variant) -> VariantView {
    VariantView {
        width: v.width as nat,
        height: v.height as nat,
        formats: formats_view(v.formats@),
    }
}

/// The variants as keyed entries: the name, then what the variant says.
pub open spec fn variant_entries(s: Seq<Variant>) -> Seq<(Seq<char>, VariantView)> {
    Seq::new(s.len(), |i: int| (s[i].name@, variant_view(s[i])))
}

/// From the name of a variant to what it says.
pub open spec fn variants_view(s: Seq<Variant>) -> Map<Seq<char>, VariantView> {
    map_of(variant_entries(s))
}

/// Whether no name of a variant occurs twice, nor a name within one of them.
pub open spec fn variants_wf(s: Seq<Variant>) -> bool {
    &&& distinct_keys(variant_entries(s))
    &&& forall|i: int| 0 <= i < s.len() ==> formats_wf((#[trigger] s[i]).formats@)
}

/// The inputs as keyed entries: the path, then the variants.
pub open spec fn image_entries(s: Seq<ImageEntry>) -> Seq<(Seq<char>, Map<Seq<char>, VariantView>)> {
    Seq::new(s.len(), |i: int| (s[i].path@, variants_view(s[i].variants@)))
}

/// The outputs of a media type with one more output; it replaces an output
/// under the same key.
pub open spec fn with_output(
    formats: Map<Seq<char>, Map<Seq<char>, Seq<char>>>,
    mime: Seq<char>,
    label: Seq<char>,
    path: Seq<char>,
) -> Map<Seq<char>, Map<Seq<char>, Seq<char>>> {
    let outputs = if formats.dom().contains(mime) {
        formats[mime]
    } else {
        Map::empty()
    };
    formats.insert(mime, outputs.insert(label, path))
}

/// The variants with one more output under the variant `name`. A variant
/// that is new gets the size given; one that is there keeps its own.
pub open spec fn with_variant(
    variants: Map<Seq<char>, VariantView>,
    name: Seq<char>,
    width: nat,
    height: nat,
    mime: Seq<char>,
    label: Seq<char>,
    path: Seq<char>,
) -> Map<Seq<char>, VariantView> {
    let variant = if variants.dom().contains(name) {
        variants[name]
    } else {
        VariantView { width, height, formats: Map::empty() }
    };
    variants.insert(
        name,
        VariantView { formats: with_output(variant.formats, mime, label, path), ..variant },
    )
}

/// The manifest with one more output of the input `image`.
pub open spec fn recorded(
    manifest: Map<Seq<char>, Map<Seq<char>, VariantView>>,
    image: Seq<char>,
    name: Seq<char>,
    width: nat,
    height: nat,
    mime: Seq<char>,
    label: Seq<char>,
    path: Seq<char>,
) -> Map<Seq<char>, Map<Seq<char>, VariantView>> {
    let variants = if manifest.dom().contains(image) {
        manifest[image]
    } else {
        Map::empty()
    };
    manifest.insert(image, with_variant(variants, name, width, height, mime, label, path))
}

/// One output to record.
pub struct Record {
    pub image: Seq<char>,
    pub name: Seq<char>,
    pub width: nat,
    pub height: nat,
    pub mime: Seq<char>,
    pub label: Seq<char>,
    pub path: Seq<char>,
}

/// The manifest after the records, in order.
pub open spec fn recorded_all(
    manifest: Map<Seq<char>, Map<Seq<char>, VariantView>>,
    records: Seq<Record>,
) -> Map<Seq<char>, Map<Seq<char>, VariantView>>
    decreases records.len(),
{
    if records.len() == 0 {
        manifest
    } else {
        let r = records.last();
        recorded(
            recorded_all(manifest, records.drop_last()),
            r.image,
            r.name,
            r.width,
            r.height,
            r.mime,
            r.label,
            r.path,
        )
    }
}

/// Whether one of the records is of the input `image`.
pub open spec fn has_record(records: Seq<Record>, image: Seq<char>) -> bool {
    exists|i: int| 0 <= i < records.len() && (#[trigger] records[i]).image == image
}

/// Whatever the order of the records, the manifest has an entry for each
/// input that it had one for or that a record is of, and for no other: of
/// outputs recorded into an empty manifest, one entry for each input.
pub proof fn lemma_one_entry_for_each_input(
    manifest: Map<Seq<char>, Map<Seq<char>, VariantView>>,
    records: Seq<Record>,
)
    ensures
        forall|image: Seq<char>| #[trigger]
            recorded_all(manifest, records).dom().contains(image) <==> manifest.dom().contains(
                image,
            ) || has_record(records, image),
    decreases records.len(),
{
    if records.len() > 0 {
        let rest = records.drop_last();
        let last = records.last();
        lemma_one_entry_for_each_input(manifest, rest);
        assert forall|image: Seq<char>| #[trigger]
            recorded_all(manifest, records).dom().contains(image) <==> manifest.dom().contains(
                image,
            ) || has_record(records, image) by {
            if has_record(records, image) {
                let i = choose|i: int| 0 <= i < records.len() && (#[trigger] records[i]).image == image;
                if i < rest.len() {
                    assert(rest[i].image == image);
                    assert(has_record(rest, image));
                    assert(recorded_all(manifest, rest).dom().contains(image));
                }
            }
            if has_record(rest, image) {
                let i = choose|i: int| 0 <= i < rest.len() && (#[trigger] rest[i]).image == image;
                assert(records[i].image == image);
            }
            if image == last.image {
                assert(records[records.len() - 1].image == image);
            }
            assert(recorded_all(manifest, rest).dom().contains(image) <==> manifest.dom().contains(
                image,
            ) || has_record(rest, image));
        }
    }
}

/// Whether `after` has the keys of `before` in their order, and `key` behind
/// them if it was not among them.
pub open spec fn keys_kept<T>(
    before: Seq<(Seq<char>, T)>,
    after: Seq<(Seq<char>, T)>,
    key: Seq<char>,
) -> bool {
    &&& after.len() == before.len() + (if has_key(before, key) {
        0nat
    } else {
        1nat
    })
    &&& forall|i: int| 0 <= i < before.len() ==> (#[trigger] after[i]).0 == before[i].0
    &&& !has_key(before, key) ==> after.last().0 == key
}

/// Whether the outputs `after` are the outputs `before` with one more under
/// `label`, each where it was first written.
pub open spec fn outputs_touched(before: Seq<Output>, after: Seq<Output>, label: Seq<char>) -> bool {
    &&& keys_kept(output_entries(before), output_entries(after), label)
    &&& forall|i: int|
        0 <= i < before.len() && before[i].label@ != label ==> (#[trigger] after[i]) == before[i]
}

/// Whether the media types `after` are the media types `before` with one more
/// output under `mime` and `label`, each where it was first written.
pub open spec fn formats_touched(
    before: Seq<FormatOutputs>,
    after: Seq<FormatOutputs>,
    mime: Seq<char>,
    label: Seq<char>,
) -> bool {
    &&& keys_kept(format_entries(before), format_entries(after), mime)
    &&& forall|i: int|
        0 <= i < before.len() && before[i].mime@ != mime ==> (#[trigger] after[i]) == before[i]
    &&& forall|i: int|
        0 <= i < before.len() && before[i].mime@ == mime ==> outputs_touched(
            before[i].outputs@,
            (#[trigger] after[i]).outputs@,
            label,
        )
    &&& !has_key(format_entries(before), mime) ==> outputs_touched(
        Seq::empty(),
        after.last().outputs@,
        label,
    )
}

/// Whether the variants `after` are the variants `before` with one more
/// output under `name`, `mime` and `label`, each where it was first written.
pub open spec fn variants_touched(
    before: Seq<Variant>,
    after: Seq<Variant>,
    name: Seq<char>,
    mime: Seq<char>,
    label: Seq<char>,
) -> bool {
    &&& keys_kept(variant_entries(before), variant_entries(after), name)
    &&& forall|i: int|
        0 <= i < before.len() && before[i].name@ != name ==> (#[trigger] after[i]) == before[i]
    &&& forall|i: int|
        0 <= i < before.len() && before[i].name@ == name ==> formats_touched(
            before[i].formats@,
            (#[trigger] after[i]).formats@,
            mime,
            label,
        )
    &&& !has_key(variant_entries(before), name) ==> formats_touched(
        Seq::empty(),
        after.last().formats@,
        mime,
        label,
    )
}

/// Whether the inputs `after` are the inputs `before` with one more output
/// under `image`, `name`, `mime` and `label`, each where it was first written.
pub open spec fn images_touched(
    before: Seq<ImageEntry>,
    after: Seq<ImageEntry>,
    image: Seq<char>,
    name: Seq<char>,
    mime: Seq<char>,
    label: Seq<char>,
) -> bool {
    &&& keys_kept(image_entries(before), image_entries(after), image)
    &&& forall|i: int|
        0 <= i < before.len() && before[i].path@ != image ==> (#[trigger] after[i]) == before[i]
    &&& forall|i: int|
        0 <= i < before.len() && before[i].path@ == image ==> variants_touched(
            before[i].variants@,
            (#[trigger] after[i]).variants@,
            name,
            mime,
            label,
        )
    &&& !has_key(image_entries(before), image) ==> variants_touched(
        Seq::empty(),
        after.last().variants@,
        name,
        mime,
        label,
    )
}

fn find_output(outputs: &Vec<Output>, label: &String) -> (r: Option<usize>)
    ensures
        match r {
            Some(i) => i < outputs@.len() && outputs@[i as int].label@ == label@,
            None => !has_key(output_entries(outputs@), label@),
        },
{
    let mut i: usize = 0;
    while i < outputs.len()
        invariant
            i <= outputs@.len(),
            forall|k: int| 0 <= k < i ==> (#[trigger] output_entries(outputs@)[k]).0 != label@,
        decreases outputs@.len() - i,
    {
        if outputs[i].label == *label {
            return Some(i);
        }
        i += 1;
    }
    None
}

fn find_format(formats: &Vec<FormatOutputs>, mime: &String) -> (r: Option<usize>)
    ensures
        match r {
            Some(i) => i < formats@.len() && formats@[i as int].mime@ == mime@,
            None => !has_key(format_entries(formats@), mime@),
        },
{
    let mut i: usize = 0;
    while i < formats.len()
        invariant
            i <= formats@.len(),
            forall|k: int| 0 <= k < i ==> (#[trigger] format_entries(formats@)[k]).0 != mime@,
        decreases formats@.len() - i,
    {
        if formats[i].mime == *mime {
            return Some(i);
        }
        i += 1;
    }
    None
}

fn find_variant(variants: &Vec<Variant>, name: &String) -> (r: Option<usize>)
    ensures
        match r {
            Some(i) => i < variants@.len() && variants@[i as int].name@ == name@,
            None => !has_key(variant_entries(variants@), name@),
        },
{
    let mut i: usize = 0;
    while i < variants.len()
        invariant
            i <= variants@.len(),
            forall|k: int| 0 <= k < i ==> (#[trigger] variant_entries(variants@)[k]).0 != name@,
        decreases variants@.len() - i,
    {
        if variants[i].name == *name {
            return Some(i);
        }
        i += 1;
    }
    None
}

fn find_image(images: &Vec<ImageEntry>, path: &String) -> (r: Option<usize>)
    ensures
        match r {
            Some(i) => i < images@.len() && images@[i as int].path@ == path@,
            None => !has_key(image_entries(images@), path@),
        },
{
    let mut i: usize = 0;
    while i < images.len()
        invariant
            i <= images@.len(),
            forall|k: int| 0 <= k < i ==> (#[trigger] image_entries(images@)[k]).0 != path@,
        decreases images@.len() - i,
    {
        if images[i].path == *path {
            return Some(i);
        }
        i += 1;
    }
    None
}

/// A key that no entry has does not break the distinctness of the keys when
/// it is written at the end.
proof fn lemma_distinct_push<T>(entries: Seq<(Seq<char>, T)>, key: Seq<char>, value: T)
    requires
        distinct_keys(entries),
        !has_key(entries, key),
    ensures
        distinct_keys(entries.push((key, value))),
{
    let after = entries.push((key, value));
    assert forall|a: int, b: int| 0 <= a < b < after.len() implies (#[trigger] after[a]).0 != (#[trigger] after[b]).0 by {
        assert(after[a] == entries[a]);
        if b < entries.len() {
            assert(after[b] == entries[b]);
        }
    }
}

/// Whether no path of an input occurs twice, nor a name within one of them.
pub open spec fn images_wf(s: Seq<ImageEntry>) -> bool {
    &&& distinct_keys(image_entries(s))
    &&& forall|i: int| 0 <= i < s.len() ==> variants_wf((#[trigger] s[i]).variants@)
}

/// Tells whether no key of a density occurs twice.
fn outputs_sound(items: &Vec<Output>) -> (b: bool)
    ensures
        b == outputs_wf(items@),
{
    let mut i: usize = 0;
    while i < items.len()
        invariant
            i <= items@.len(),
            forall|a: int, b: int|
                0 <= a < b < i ==> (#[trigger] output_entries(items@)[a]).0 != (#[trigger] output_entries(items@)[b]).0,
        decreases items@.len() - i,
    {
        let mut j: usize = 0;
        while j < i
            invariant
                j <= i < items@.len(),
                forall|a: int| 0 <= a < j ==> (#[trigger] output_entries(items@)[a]).0 != output_entries(items@)[i as int].0,
            decreases i - j,
        {
            if items[j].label == items[i].label {
                assert(output_entries(items@)[j as int].0 == output_entries(items@)[i as int].0);
                return false;
            }
            j += 1;
        }
        i += 1;
    }
    true
}

/// Tells whether no media type occurs twice, nor a key under one of them.
fn formats_sound(items: &Vec<FormatOutputs>) -> (b: bool)
    ensures
        b == formats_wf(items@),
{
    let mut i: usize = 0;
    while i < items.len()
        invariant
            i <= items@.len(),
            forall|a: int, b: int|
                0 <= a < b < i ==> (#[trigger] format_entries(items@)[a]).0 != (#[trigger] format_entries(items@)[b]).0,
            forall|k: int| 0 <= k < i ==> outputs_wf((#[trigger] items@[k]).outputs@),
        decreases items@.len() - i,
    {
        if !outputs_sound(&items[i].outputs) {
            return false;
        }
        let mut j: usize = 0;
        while j < i
            invariant
                j <= i < items@.len(),
                forall|a: int| 0 <= a < j ==> (#[trigger] format_entries(items@)[a]).0 != format_entries(items@)[i as int].0,
            decreases i - j,
        {
            if items[j].mime == items[i].mime {
                assert(format_entries(items@)[j as int].0 == format_entries(items@)[i as int].0);
                return false;
            }
            j += 1;
        }
        i += 1;
    }
    true
}

/// Tells whether no name of a variant occurs twice, nor a name within one of them.
fn variants_sound(items: &Vec<Variant>) -> (b: bool)
    ensures
        b == variants_wf(items@),
{
    let mut i: usize = 0;
    while i < items.len()
        invariant
            i <= items@.len(),
            forall|a: int, b: int|
                0 <= a < b < i ==> (#[trigger] variant_entries(items@)[a]).0 != (#[trigger] variant_entries(items@)[b]).0,
            forall|k: int| 0 <= k < i ==> formats_wf((#[trigger] items@[k]).formats@),
        decreases items@.len() - i,
    {
        if !formats_sound(&items[i].formats) {
            return false;
        }
        let mut j: usize = 0;
        while j < i
            invariant
                j <= i < items@.len(),
                forall|a: int| 0 <= a < j ==> (#[trigger] variant_entries(items@)[a]).0 != variant_entries(items@)[i as int].0,
            decreases i - j,
        {
            if items[j].name == items[i].name {
                assert(variant_entries(items@)[j as int].0 == variant_entries(items@)[i as int].0);
                return false;
            }
            j += 1;
        }
        i += 1;
    }
    true
}

/// Tells whether no path of an input occurs twice, nor a name within one of them.
fn images_sound(items: &Vec<ImageEntry>) -> (b: bool)
    ensures
        b == images_wf(items@),
{
    let mut i: usize = 0;
    while i < items.len()
        invariant
            i <= items@.len(),
            forall|a: int, b: int|
                0 <= a < b < i ==> (#[trigger] image_entries(items@)[a]).0 != (#[trigger] image_entries(items@)[b]).0,
            forall|k: int| 0 <= k < i ==> variants_wf((#[trigger] items@[k]).variants@),
        decreases items@.len() - i,
    {
        if !variants_sound(&items[i].variants) {
            return false;
        }
        let mut j: usize = 0;
        while j < i
            invariant
                j <= i < items@.len(),
                forall|a: int| 0 <= a < j ==> (#[trigger] image_entries(items@)[a]).0 != image_entries(items@)[i as int].0,
            decreases i - j,
        {
            if items[j].path == items[i].path {
                assert(image_entries(items@)[j as int].0 == image_entries(items@)[i as int].0);
                return false;
            }
            j += 1;
        }
        i += 1;
    }
    true
}

fn put_output(outputs: &mut Vec<Output>, label: String, path: String)
    requires
        outputs_wf(old(outputs)@),
    ensures
        outputs_wf(final(outputs)@),
        outputs_view(final(outputs)@) == outputs_view(old(outputs)@).insert(label@, path@),
        outputs_touched(old(outputs)@, final(outputs)@, label@),
{
    let ghost before = output_entries(outputs@);
    match find_output(outputs, &label) {
        Some(i) => {
            outputs[i].path = path;
            proof {
                assert(output_entries(outputs@) =~= before.update(i as int, (before[i as int].0, path@)));
                lemma_map_of_update(before, i as int, path@);
            }
        },
        None => {
            outputs.push(Output { label, path });
            proof {
                assert(output_entries(outputs@) =~= before.push((label@, path@)));
                lemma_map_of_push(before, label@, path@);
                lemma_distinct_push(before, label@, path@);
            }
        },
    }
}

fn put_format(formats: &mut Vec<FormatOutputs>, mime: String, label: String, path: String)
    requires
        formats_wf(old(formats)@),
    ensures
        formats_wf(final(formats)@),
        formats_view(final(formats)@) == with_output(
            formats_view(old(formats)@),
            mime@,
            label@,
            path@,
        ),
        formats_touched(old(formats)@, final(formats)@, mime@, label@),
{
    let ghost given = formats@;
    let ghost before = format_entries(formats@);
    proof {
        lemma_map_of_keys(before);
    }
    match find_format(formats, &mime) {
        Some(i) => {
            put_output(&mut formats[i].outputs, label, path);
            proof {
                let value = outputs_view(given[i as int].outputs@).insert(label@, path@);
                assert(before[i as int].0 == mime@);
                lemma_map_of_entry(before, i as int);
                assert(format_entries(formats@) =~= before.update(i as int, (mime@, value)));
                lemma_map_of_update(before, i as int, value);
                assert forall|k: int| 0 <= k < formats@.len() implies outputs_wf(
                    (#[trigger] formats@[k]).outputs@,
                ) by {
                    if k != i {
                        assert(formats@[k] == given[k]);
                    }
                }
                assert(has_key(before, mime@));
                assert forall|k: int| 0 <= k < given.len() && given[k].mime@ == mime@ implies k
                    == i by {
                    if k != i {
                        assert(before[k].0 == mime@);
                    }
                }
                assert forall|k: int| 0 <= k < given.len() implies (#[trigger] format_entries(
                    formats@,
                )[k]).0 == before[k].0 by {}
            }
        },
        None => {
            let mut outputs: Vec<Output> = Vec::new();
            assert(output_entries(outputs@) =~= Seq::empty());
            put_output(&mut outputs, label, path);
            let ghost value = outputs_view(outputs@);
            formats.push(FormatOutputs { mime, outputs });
            proof {
                assert(format_entries(formats@) =~= before.push((mime@, value)));
                lemma_map_of_push(before, mime@, value);
                lemma_distinct_push(before, mime@, value);
                assert forall|k: int| 0 <= k < formats@.len() implies outputs_wf(
                    (#[trigger] formats@[k]).outputs@,
                ) by {
                    if k < given.len() {
                        assert(formats@[k] == given[k]);
                    }
                }
                assert forall|k: int| 0 <= k < given.len() implies given[k].mime@ != mime@
                    && #[trigger] formats@[k] == given[k] by {
                    assert(before[k].0 == given[k].mime@);
                }
                assert(formats@.last().outputs@ == outputs@);
            }
        },
    }
}

fn put_variant(
    variants: &mut Vec<Variant>,
    name: String,
    width: u32,
    height: u32,
    mime: String,
    label: String,
    path: String,
)
    requires
        variants_wf(old(variants)@),
    ensures
        variants_wf(final(variants)@),
        variants_view(final(variants)@) == with_variant(
            variants_view(old(variants)@),
            name@,
            width as nat,
            height as nat,
            mime@,
            label@,
            path@,
        ),
        variants_touched(old(variants)@, final(variants)@, name@, mime@, label@),
{
    let ghost given = variants@;
    let ghost before = variant_entries(variants@);
    proof {
        lemma_map_of_keys(before);
    }
    match find_variant(variants, &name) {
        Some(i) => {
            put_format(&mut variants[i].formats, mime, label, path);
            proof {
                let old_view = variant_view(given[i as int]);
                let value = VariantView {
                    formats: with_output(old_view.formats, mime@, label@, path@),
                    ..old_view
                };
                assert(before[i as int].0 == name@);
                lemma_map_of_entry(before, i as int);
                assert(variant_view(variants@[i as int]) == value);
                assert(variant_entries(variants@) =~= before.update(i as int, (name@, value)));
                lemma_map_of_update(before, i as int, value);
                assert forall|k: int| 0 <= k < variants@.len() implies formats_wf(
                    (#[trigger] variants@[k]).formats@,
                ) by {
                    if k != i {
                        assert(variants@[k] == given[k]);
                    }
                }
                assert(has_key(before, name@));
                assert forall|k: int| 0 <= k < given.len() && given[k].name@ == name@ implies k
                    == i by {
                    if k != i {
                        assert(before[k].0 == name@);
                    }
                }
                assert forall|k: int| 0 <= k < given.len() implies (#[trigger] variant_entries(
                    variants@,
                )[k]).0 == before[k].0 by {}
            }
        },
        None => {
            let mut formats: Vec<FormatOutputs> = Vec::new();
            assert(format_entries(formats@) =~= Seq::empty());
            put_format(&mut formats, mime, label, path);
            let ghost made = formats@;
            let variant = Variant { name, width, height, formats };
            let ghost value = variant_view(variant);
            variants.push(variant);
            proof {
                assert(variant_entries(variants@) =~= before.push((name@, value)));
                lemma_map_of_push(before, name@, value);
                lemma_distinct_push(before, name@, value);
                assert forall|k: int| 0 <= k < variants@.len() implies formats_wf(
                    (#[trigger] variants@[k]).formats@,
                ) by {
                    if k < given.len() {
                        assert(variants@[k] == given[k]);
                    }
                }
                assert forall|k: int| 0 <= k < given.len() implies given[k].name@ != name@
                    && #[trigger] variants@[k] == given[k] by {
                    assert(before[k].0 == given[k].name@);
                }
                assert(variants@.last().formats@ == made);
            }
        },
    }
}

impl View for Manifest {
    type V = Map<Seq<char>, Map<Seq<char>, VariantView>>;

    /// From the path of an input to its variants.
    open spec fn view(&self) -> Map<Seq<char>, Map<Seq<char>, VariantView>> {
        map_of(image_entries(self.images@))
    }
}

impl Manifest {
    /// Whether no name occurs twice where names tell entries apart.
    pub open spec fn well_formed(self) -> bool {
        &&& distinct_keys(image_entries(self.images@))
        &&& forall|i: int|
            0 <= i < self.images@.len() ==> variants_wf((#[trigger] self.images@[i]).variants@)
    }

    /// Tells whether the manifest is well formed. The fields are open, so a
    /// manifest that was put together by hand is to be asked before it is
    /// recorded into.
    pub fn is_well_formed(&self) -> (b: bool)
        ensures
            b == self.well_formed(),
    {
        images_sound(&self.images)
    }

    /// The manifest without entries.
    pub fn new() -> (m: Manifest)
        ensures
            m.well_formed(),
            m@ == Map::<Seq<char>, Map<Seq<char>, VariantView>>::empty(),
            m.images@.len() == 0,
    {
        let m = Manifest { images: Vec::new() };
        assert(image_entries(m.images@) =~= Seq::empty());
        m
    }

    /// Records an output of the input `image` under the variant `name`: the
    /// file at `path`, of the media type `mime`, under the key `label` of its
    /// density. `width` and `height` are the size of the variant at a density
    /// of one; a variant that is already there keeps its size.
    pub fn record(
        &mut self,
        image: &str,
        name: &str,
        width: u32,
        height: u32,
        mime: &str,
        label: &str,
        path: &str,
    )
        requires
            old(self).well_formed(),
        ensures
            final(self).well_formed(),
            final(self)@ == recorded(
                old(self)@,
                image@,
                name@,
                width as nat,
                height as nat,
                mime@,
                label@,
                path@,
            ),
            // Every entry stays where it was first written.
            images_touched(old(self).images@, final(self).images@, image@, name@, mime@, label@),
    {
        let ghost given = self.images@;
        let ghost before = image_entries(self.images@);
        proof {
            lemma_map_of_keys(before);
        }
        let image = String::from_str(image);
        let name = String::from_str(name);
        let mime = String::from_str(mime);
        let label = String::from_str(label);
        let path = String::from_str(path);
        match find_image(&self.images, &image) {
            Some(i) => {
                put_variant(&mut self.images[i].variants, name, width, height, mime, label, path);
                proof {
                    let value = with_variant(
                        variants_view(given[i as int].variants@),
                        name@,
                        width as nat,
                        height as nat,
                        mime@,
                        label@,
                        path@,
                    );
                    assert(before[i as int].0 == image@);
                    lemma_map_of_entry(before, i as int);
                    assert(image_entries(self.images@) =~= before.update(i as int, (image@, value)));
                    lemma_map_of_update(before, i as int, value);
                    assert forall|k: int| 0 <= k < self.images@.len() implies variants_wf(
                        (#[trigger] self.images@[k]).variants@,
                    ) by {
                        if k != i {
                            assert(self.images@[k] == given[k]);
                        }
                    }
                    assert(has_key(before, image@));
                    assert forall|k: int| 0 <= k < given.len() && given[k].path@ == image@ implies k
                        == i by {
                        if k != i {
                            assert(before[k].0 == image@);
                        }
                    }
                    assert forall|k: int| 0 <= k < given.len() implies (#[trigger] image_entries(
                        self.images@,
                    )[k]).0 == before[k].0 by {}
                }
            },
            None => {
                let mut variants: Vec<Variant> = Vec::new();
                assert(variant_entries(variants@) =~= Seq::empty());
                put_variant(&mut variants, name, width, height, mime, label, path);
                let ghost value = variants_view(variants@);
                let ghost made = variants@;
                self.images.push(ImageEntry { path: image, variants });
                proof {
                    assert(image_entries(self.images@) =~= before.push((image@, value)));
                    lemma_map_of_push(before, image@, value);
                    lemma_distinct_push(before, image@, value);
                    assert forall|k: int| 0 <= k < self.images@.len() implies variants_wf(
                        (#[trigger] self.images@[k]).variants@,
                    ) by {
                        if k < given.len() {
                            assert(self.images@[k] == given[k]);
                        }
                    }
                    assert forall|k: int| 0 <= k < given.len() implies given[k].path@ != image@
                        && #[trigger] self.images@[k] == given[k] by {
                        assert(before[k].0 == given[k].path@);
                    }
                    assert(self.images@.last().variants@ == made);
                }
            },
        }
    }
}

} // verus!
