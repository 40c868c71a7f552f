use hl::index::{
    Chronology, Header, Index, Indexer, OffsetPair, SourceBlock, SourceFile, Stat,
    FLAG_HAS_TIMESTAMPS, FLAG_LEVEL_INFO, FLAG_UNSORTED,
};
use hl::input::{Block, IndexedInput};
use hl::model::{Parser, ParserSettings};
use hl::settings::Fields;
use std::sync::Arc;

fn sample_index() -> Index {
    let mut stat = Stat::new();
    stat.add_valid(Some((3, 500)), FLAG_LEVEL_INFO);
    stat.add_valid(Some((7, 0)), FLAG_LEVEL_INFO);
    let block = SourceBlock::new(
        0,
        77,
        stat,
        Chronology {
            bitmap: vec![2],
            offsets: vec![OffsetPair { bytes: 40, jumps: 0 }],
            jumps: vec![0],
        },
    );
    let mut total = Stat::new();
    total.merge(&stat);
    Index {
        source: SourceFile {
            size: 77,
            path: b"sample.log".to_vec(),
            modified: (1593254910, 12),
            stat: total,
            blocks: vec![block],
        },
    }
}

#[test]
fn index_round_trip() {
    let ix = sample_index();
    let bytes = ix.save();
    let loaded = Index::load(&bytes).unwrap();
    assert_eq!(loaded.source.size, ix.source.size);
    assert_eq!(loaded.source.path, ix.source.path);
    assert_eq!(loaded.source.modified, ix.source.modified);
    assert_eq!(loaded.source.stat, ix.source.stat);
    assert_eq!(loaded.source.blocks.len(), 1);
    assert_eq!(loaded.source.blocks[0].offset, 0);
    assert_eq!(loaded.source.blocks[0].size, 77);
    assert_eq!(loaded.source.blocks[0].stat, ix.source.blocks[0].stat);
    assert_eq!(loaded.source.blocks[0].chronology.bitmap, vec![2]);
    assert_eq!(loaded.source.blocks[0].chronology.jumps, vec![0]);
}

#[test]
fn load_rejects_wrong_magic_and_version() {
    let ix = sample_index();
    let mut bytes = ix.save();
    bytes[0] ^= 0xff;
    assert!(Index::load(&bytes).is_err());
    let mut bytes2 = ix.save();
    bytes2[8] ^= 0x01;
    assert!(Index::load(&bytes2).is_err());
    assert!(Index::load(b"short").is_err());
}

#[test]
fn header_validation() {
    let h = Header::new();
    assert!(h.is_valid());
    assert!(h.validate().is_ok());
    let bad = Header { magic: 1, ..Header::new() };
    assert!(bad.validate().is_err());
}

#[test]
fn stat_accumulates_lines_and_extremes() {
    let mut stat = Stat::new();
    stat.add_valid(Some((5, 0)), FLAG_LEVEL_INFO);
    stat.add_valid(Some((1, 0)), 0);
    stat.add_invalid();
    assert_eq!(stat.lines_valid, 2);
    assert_eq!(stat.lines_invalid, 1);
    assert_eq!(stat.ts_min_max, Some(((1, 0), (5, 0))));
    assert!(stat.flags & FLAG_HAS_TIMESTAMPS != 0);
    assert!(stat.flags & FLAG_LEVEL_INFO != 0);
}

fn ts_line(sec: u64) -> Vec<u8> {
    format!("{{\"ts\":\"2020-06-27T00:00:0{}Z\",\"msg\":\"m{}\"}}\n", sec, sec).into_bytes()
}

#[test]
fn chronology_iterates_in_timestamp_order() {
    // a single block whose physical timestamp order is 5, 1, 4, 2, 3
    let order = [5u64, 1, 4, 2, 3];
    let mut data = Vec::new();
    let mut starts = Vec::new();
    for sec in order {
        starts.push(data.len());
        data.extend_from_slice(&ts_line(sec));
    }
    let parser = Parser::new(ParserSettings::new(Fields::default(), false));
    let indexer = Indexer::new(1, 1 << 20, b"cache".to_vec());
    let (stat, chronology, _, _) = indexer.process_segment(&parser, &data);
    assert_eq!(stat.lines_valid, 5);
    assert!(stat.flags & FLAG_UNSORTED != 0);
    let block = SourceBlock::new(0, data.len() as u32, stat, chronology);
    let mut total = Stat::new();
    total.merge(&block.stat);
    let index = Index {
        source: SourceFile {
            size: data.len() as u64,
            path: b"test".to_vec(),
            modified: (0, 0),
            stat: total,
            blocks: vec![block],
        },
    };
    let input = Arc::new(IndexedInput::new(b"test".to_vec(), index));
    let block = Block::new(input, 0);
    let mut lines = block.into_lines(data.clone());
    let mut seen = Vec::new();
    while let Some(line) = lines.next() {
        seen.push((line.offset(), line.bytes().to_vec()));
    }
    // chronological order is 1, 2, 3, 4, 5; offsets point at the originals
    let expected_order = [1u64, 2, 3, 4, 5];
    assert_eq!(seen.len(), 5);
    for (k, sec) in expected_order.iter().enumerate() {
        let phys = order.iter().position(|s| s == sec).unwrap();
        assert_eq!(seen[k].0, starts[phys]);
        assert_eq!(seen[k].1, ts_line(*sec));
    }
}

#[test]
fn cache_file_name_is_hex_of_digest() {
    let indexer = Indexer::new(1, 1 << 20, b"cache".to_vec());
    let name = indexer.cache_file_name(b"/var/log/app.log");
    assert_eq!(name.len(), 64);
    assert!(name.iter().all(|b| b.is_ascii_hexdigit()));
}

#[test]
fn aggregation_assigns_consecutive_offsets() {
    let mut s1 = Stat::new();
    s1.add_valid(Some((1, 0)), FLAG_LEVEL_INFO);
    let mut s2 = Stat::new();
    s2.add_valid(Some((2, 0)), 0);
    let results = vec![(10u32, s1, Chronology::new()), (20u32, s2, Chronology::new())];
    let ix = Index::from_segments(b"p".to_vec(), (9, 9), results).unwrap();
    assert_eq!(ix.source.size, 30);
    assert_eq!(ix.source.blocks[0].offset, 0);
    assert_eq!(ix.source.blocks[1].offset, 10);
    assert_eq!(ix.source.stat.lines_valid, 2);
    assert_eq!(ix.source.stat.ts_min_max, Some(((1, 0), (2, 0))));
}
