//! A block map in two layers.

use elide_core::extent_index::{DeltaLocation, ExtentIndex, ExtentLocation};
use elide_core::ids::{content_hash, ContentHash, Ulid};
use elide_core::lbamap::{ExtentRead, LbaMap};
use elide_core::map_layers::{MapLayers, Maps};
use elide_core::segment::{Codec, DeltaOption};

fn h(n: u8) -> ContentHash {
    content_hash(&[n])
}

fn seg(n: u64) -> Ulid {
    Ulid::from_parts(n, n as u128)
}

fn reads(v: &[ExtentRead]) -> Vec<(u64, u64, ContentHash, u32)> {
    v.iter()
        .map(|x| (x.range_start, x.range_end, x.hash, x.payload_block_offset))
        .collect()
}

#[test]
fn delta_masks_base_and_base_fills_the_gaps() {
    let mut base = LbaMap::new();
    base.insert(0, 100, h(1), seg(1));
    let mut layers = MapLayers::new(Maps::new(base, ExtentIndex::new()));
    layers.delta_lbamap_mut().insert(30, 20, h(2), seg(2));

    assert_eq!(
        reads(&layers.extents_in_range(0, 100)),
        vec![(0, 30, h(1), 0), (30, 50, h(2), 0), (50, 100, h(1), 50)]
    );
    assert_eq!(
        reads(&layers.extents_in_range(40, 60)),
        vec![(40, 50, h(2), 10), (50, 60, h(1), 50)]
    );
    assert_eq!(
        reads(&layers.extents_in_range(100, 120)),
        Vec::<(u64, u64, ContentHash, u32)>::new()
    );
}

#[test]
fn gaps_in_both_layers_stay_gaps() {
    let mut base = LbaMap::new();
    base.insert(10, 10, h(1), seg(1));
    let mut layers = MapLayers::new(Maps::new(base, ExtentIndex::new()));
    layers.delta_lbamap_mut().insert(40, 10, h(2), seg(2));

    assert_eq!(
        reads(&layers.extents_in_range(0, 60)),
        vec![(10, 20, h(1), 0), (40, 50, h(2), 0)]
    );
}

#[test]
fn full_match_answers_from_the_topmost_covering_layer() {
    let mut base = LbaMap::new();
    base.insert(0, 4, h(1), seg(1));
    base.insert(8, 4, h(3), seg(1));
    let mut layers = MapLayers::new(Maps::new(base, ExtentIndex::new()));
    layers.delta_lbamap_mut().insert(1, 1, h(2), seg(2));
    layers.delta_lbamap_mut().insert(16, 4, h(4), seg(2));

    assert!(
        !layers.has_full_match(0, 4, &h(1)),
        "a partial delta cover masks base"
    );
    assert!(
        layers.has_full_match(8, 4, &h(3)),
        "base answers with no delta cover"
    );
    assert!(
        layers.has_full_match(16, 4, &h(4)),
        "delta answers its own full match"
    );
    assert!(!layers.has_full_match(16, 2, &h(4)));
}

struct Lcg(u64);

impl Lcg {
    fn next(&mut self) -> u64 {
        self.0 = self
            .0
            .wrapping_mul(6364136223846793005)
            .wrapping_add(1442695040888963407);
        self.0 >> 33
    }
}

fn entries(m: &LbaMap) -> Vec<(u64, u32, ContentHash, u32, Ulid)> {
    m.iter_entries_with_claimant()
}

#[test]
fn absorb_equals_the_writes_applied_to_one_map() {
    let mut lcg = Lcg(7);
    let mut single = LbaMap::new();
    let mut base = LbaMap::new();
    for _ in 0..200 {
        let lba = lcg.next() % 64;
        let len = 1 + (lcg.next() % 4) as u32;
        let hash = h((lcg.next() % 16) as u8);
        single.insert(lba, len, hash, seg(1));
        base.insert(lba, len, hash, seg(1));
    }
    let mut layers = MapLayers::new(Maps::new(base, ExtentIndex::new()));
    for _ in 0..200 {
        let lba = lcg.next() % 64;
        let len = 1 + (lcg.next() % 4) as u32;
        let hash = h((lcg.next() % 16) as u8);
        single.insert(lba, len, hash, seg(2));
        layers.delta_lbamap_mut().insert(lba, len, hash, seg(2));
    }
    assert!(!layers.delta_is_empty());

    let materialised = layers.materialised();
    assert!(
        !layers.delta_is_empty(),
        "materialised leaves the layers alone"
    );
    assert_eq!(entries(&materialised.lbamap), entries(&single));

    layers.absorb();
    assert!(layers.delta_is_empty());
    let absorbed = layers.materialised();
    assert_eq!(entries(&absorbed.lbamap), entries(&single));
    for n in 0..16u8 {
        assert_eq!(
            absorbed.lbamap.claim_refcount(&h(n)),
            single.claim_refcount(&h(n)),
            "claim count for hash {n}"
        );
    }
    assert_eq!(reads(&layers.extents_in_range(0, 64)), {
        let v: Vec<ExtentRead> = single.extents_in_range(0, 64);
        reads(&v)
    });
}

#[test]
fn restore_puts_base_back() {
    let mut base = LbaMap::new();
    base.insert(0, 4, h(1), seg(1));
    let mut layers = MapLayers::new(Maps::new(base, ExtentIndex::new()));
    layers.delta_lbamap_mut().insert(8, 4, h(2), seg(2));

    layers.absorb();
    let pre = layers.materialised();
    layers.lbamap_mut().insert(0, 4, h(3), seg(3));
    assert!(layers.has_full_match(0, 4, &h(3)));

    layers.restore(pre);
    assert!(layers.has_full_match(0, 4, &h(1)));
    assert!(layers.has_full_match(8, 4, &h(2)));
    assert!(layers.delta_is_empty());
}

fn body_at(n: u64) -> ExtentLocation {
    ExtentLocation {
        segment_id: seg(n),
        body_offset: n,
        body_length: 4096,
        codec: Codec::Lz4,
        inline: false,
    }
}

#[test]
fn a_lookup_takes_the_delta_layer_first() {
    let mut index = ExtentIndex::new();
    index.insert_if_absent(h(1), body_at(1));
    index.insert_if_absent(h(1), body_at(9));
    index.insert_journal_if_absent(seg(3), h(2), body_at(3));
    index.insert_delta_if_absent(
        h(5),
        DeltaLocation {
            segment_id: seg(2),
            options: vec![DeltaOption {
                source_hash: h(1),
                delta_offset: 0,
                delta_length: 8,
                delta_hash: h(9),
            }],
        },
    );
    let mut layers = MapLayers::new(Maps::new(LbaMap::new(), index));
    layers.delta_extent_index_mut().insert_if_absent(h(1), body_at(2));

    assert_eq!(layers.lookup_extent(&h(1)), Some(&body_at(2)));
    assert_eq!(layers.lookup_extent(&h(2)), None);
    assert_eq!(layers.lookup_journal(seg(3), &h(2)), Some(&body_at(3)));
    assert_eq!(layers.lookup_journal(seg(4), &h(2)), None);
    assert!(!layers.journal_is_empty());
    assert_eq!(layers.lookup_delta(&h(5)).unwrap().segment_id, seg(2));
    assert!(layers.lookup_delta(&h(1)).is_none());
    assert_eq!(layers.base().extent_index.lookup(&h(1)), Some(&body_at(1)));
    assert!(layers.delta().lbamap.is_empty());
    assert!(layers.base().extent_index.named_delta_sources().contains(&h(1)));
    assert!(Maps::empty().extent_index.is_empty());

    let base = layers.base_mut();
    base.lbamap.insert(0, 1, h(1), seg(1));
    assert!(layers.delta_is_empty());
    assert!(layers.lookup_delta(&h(5)).is_some());
    layers.extent_index_mut().insert_if_absent(h(7), body_at(7));
    assert_eq!(layers.lookup_extent(&h(7)), Some(&body_at(7)));
}
