use server::nonzero::NonZeroU64;
use server::world::chunk::generate_arrays;
use server::world::packing::{bits_required_for_value_range, entry_mask, pack_entries};
use server::world::palette::{
    serialize_block_indirect_paletted, serialize_direct_paletted, serialize_single_paletted,
};
use server::world::{
    BiomePalettedContainer, BlockPalettedContainer, ChunkSection, Level, LevelChunk, LightSection,
    PalettedContainer, TaskClosure, TaskSchedule,
};
use server::Serialize;
use std::cell::RefCell;
use std::rc::Rc;

#[test]
fn grows_palette_and_repacks_existing_entries() {
    let mut section = ChunkSection::new();
    section.set_block(0, 0, 0, 1);
    section.set_block(1, 0, 0, 2);
    section.set_block(2, 0, 0, 3);

    let PalettedContainer::Indirect {
        bits_per_entry,
        palette,
        data,
    } = section.block_states()
    else {
        panic!("expected indirect block states");
    };

    assert_eq!(*bits_per_entry, 2);
    assert_eq!(palette, &vec![0, 1, 2, 3]);
    assert_eq!(
        ChunkSection::packed_entry(data, ChunkSection::entry_index(0, 0, 0), *bits_per_entry),
        1
    );
    assert_eq!(
        ChunkSection::packed_entry(data, ChunkSection::entry_index(1, 0, 0), *bits_per_entry),
        2
    );
    assert_eq!(
        ChunkSection::packed_entry(data, ChunkSection::entry_index(2, 0, 0), *bits_per_entry),
        3
    );
}

#[test]
fn packed_entries_use_padded_word_boundaries() {
    let mut data = vec![0; ChunkSection::packed_word_count(5)];
    let last_in_first_word = 11;
    let first_in_second_word = 12;

    ChunkSection::set_packed_entry(&mut data, last_in_first_word, 5, 0b0_1010);
    ChunkSection::set_packed_entry(&mut data, first_in_second_word, 5, 0b1_1010);

    assert_eq!(
        ChunkSection::packed_entry(&data, last_in_first_word, 5),
        0b0_1010
    );
    assert_eq!(
        ChunkSection::packed_entry(&data, first_in_second_word, 5),
        0b1_1010
    );
    assert_eq!(data[0] >> 60, 0);
}

#[test]
fn packing_formulas() {
    assert_eq!(ChunkSection::packed_word_count(1), 64);
    assert_eq!(ChunkSection::packed_word_count(4), 256);
    assert_eq!(ChunkSection::packed_word_count(5), 342);
    assert_eq!(ChunkSection::packed_word_count(15), 1024);
    assert_eq!(ChunkSection::entries_per_word(5), 12);
    assert_eq!(ChunkSection::bit_index(13, 5), (1, 5));
    assert_eq!(ChunkSection::entry_index(1, 2, 3), 2 * 256 + 3 * 16 + 1);
    assert_eq!(ChunkSection::bits_required_for_palette_len(2), 1);
    assert_eq!(ChunkSection::bits_required_for_palette_len(3), 2);
    assert_eq!(ChunkSection::bits_required_for_palette_len(4), 2);
    assert_eq!(ChunkSection::bits_required_for_palette_len(5), 3);
    assert_eq!(ChunkSection::bits_required_for_palette_len(257), 9);
    assert_eq!(ChunkSection::entry_mask(5), 0x1F);
    assert_eq!(entry_mask(64), u64::MAX);
    assert_eq!(bits_required_for_value_range(0), 1);
    assert_eq!(bits_required_for_value_range(1), 1);
    assert_eq!(bits_required_for_value_range(255), 8);
    assert_eq!(bits_required_for_value_range(u64::MAX), 64);
    assert_eq!(pack_entries(&[1, 2, 3], 32), vec![(2 << 32) | 1, 3]);
    assert_eq!(pack_entries(&[0x1FF], 8), vec![0xFF]);
}

#[test]
fn repacking_keeps_every_entry() {
    let values: Vec<u64> = (0..4096).map(|i| (i * 7) % 32).collect();
    let narrow = pack_entries(&values, 5);
    let wide = ChunkSection::repack_packed_data(&narrow, 5, 9);
    assert_eq!(wide, pack_entries(&values, 9));
    for (i, v) in values.iter().enumerate() {
        assert_eq!(ChunkSection::packed_entry(&wide, i, 9), *v);
    }
}

#[test]
fn blocks_read_back_as_they_were_set() {
    let mut section = ChunkSection::new();
    let state = |x: u8, y: u8, z: u8| (x as u16 * 31 + y as u16 * 7 + z as u16) % 40;
    for x in 0..16 {
        for y in 0..16 {
            for z in 0..16 {
                section.set_block(x, y, z, state(x, y, z));
            }
        }
    }
    let mut solid = 0;
    for x in 0..16 {
        for y in 0..16 {
            for z in 0..16 {
                assert_eq!(section.get_block(x, y, z), state(x, y, z));
                if state(x, y, z) != 0 {
                    solid += 1;
                }
            }
        }
    }
    assert_eq!(section.block_count(), solid);
}

#[test]
fn blocks_outside_of_a_section_are_ignored() {
    let mut section = ChunkSection::new();
    section.set_block(16, 0, 0, 1);
    section.set_block(0, 16, 0, 1);
    section.set_block(0, 0, 255, 1);
    assert_eq!(section.block_count(), 0);
    assert!(matches!(section.block_states(), PalettedContainer::Single(0)));
    assert_eq!(section.get_block(200, 200, 200), 0);
}

#[test]
fn setting_the_same_state_keeps_one_value() {
    let mut section = ChunkSection::new();
    section.fill_all(9);
    section.set_block(3, 3, 3, 9);
    assert!(matches!(section.block_states(), PalettedContainer::Single(9)));
    assert_eq!(section.block_count(), 4096);
    section.set_block(3, 3, 3, 0);
    assert_eq!(section.block_count(), 4095);
    assert_eq!(section.get_block(3, 3, 3), 0);
    assert_eq!(section.get_block(3, 3, 4), 9);
    section.fill_all(0);
    assert_eq!(section.block_count(), 0);
}

fn words(section: &ChunkSection) -> (u8, Vec<u16>, Vec<u64>) {
    match section.block_states() {
        PalettedContainer::Indirect { bits_per_entry, palette, data } => {
            (*bits_per_entry, palette.clone(), data.clone())
        }
        _ => panic!("expected indirect block states"),
    }
}

#[test]
fn placing_a_state_twice_grows_the_palette_once() {
    let mut section = ChunkSection::new();
    section.set_block(0, 0, 0, 7);
    let once = words(&section);
    section.set_block(0, 0, 0, 7);
    assert_eq!(words(&section), once);
    section.set_block(9, 9, 9, 7);
    let (bits, palette, _) = words(&section);
    assert_eq!((bits, palette), (1, vec![0, 7]));
}

#[test]
fn palettes_use_the_fewest_bits() {
    let mut section = ChunkSection::new();
    for n in 1..600u16 {
        let (x, y, z) = ((n % 16) as u8, (n / 256) as u8, ((n / 16) % 16) as u8);
        section.set_block(x, y, z, n);
        let (bits, palette, data) = words(&section);
        assert_eq!(palette.len(), n as usize + 1);
        assert_eq!(bits, ChunkSection::bits_required_for_palette_len(palette.len()));
        assert_eq!(data.len(), ChunkSection::packed_word_count(bits));
    }
    section.fill((0, 0, 0), (16, 16, 16), 600);
    let (bits, palette, _) = words(&section);
    assert_eq!((bits, palette.len()), (10, 601));
}

#[test]
fn blocks_and_palette_settle_the_words() {
    let mut one = ChunkSection::new();
    one.set_block(1, 2, 3, 7);
    one.set_block(4, 5, 6, 8);
    let mut other = ChunkSection::new();
    other.set_block(4, 5, 6, 7);
    other.set_block(1, 2, 3, 8);
    other.set_block(4, 5, 6, 8);
    other.set_block(1, 2, 3, 7);
    assert_eq!(words(&one), words(&other));
}

#[test]
fn sent_indices_lead_to_the_blocks() {
    let mut section = ChunkSection::new();
    section.set_block(3, 0, 0, 11);
    section.set_block(4, 0, 1, 12);
    let out = section.block_states().serialize();
    assert_eq!(&out[..5], &[4, 3, 0, 11, 12][..]);
    let palette = [0u16, 11, 12];
    for i in 0..4096usize {
        let at = 5 + (i / 16) * 8;
        let mut bytes = [0u8; 8];
        bytes.copy_from_slice(&out[at..at + 8]);
        let index = (u64::from_be_bytes(bytes) >> (4 * (i % 16))) & 0xF;
        let (x, y, z) = ((i % 16) as u8, (i / 256) as u8, ((i / 16) % 16) as u8);
        assert_eq!(palette[index as usize], section.get_block(x, y, z));
    }
}

#[test]
fn a_chunk_of_many_states_fits_in_a_packet() {
    let mut chunk = LevelChunk::new();
    for x in 0..16u8 {
        for y in -64..320 {
            for z in 0..16u8 {
                chunk.set_block(x, y, z, ((x as i32 + 16 * z as i32 + 256 * (y % 8)) & 0x7FF) as u16);
            }
        }
    }
    let out = chunk.serialize(0, 0);
    assert!(out.len() < 10_000_000);
    let packet = server::assemble(0x2C, &out);
    let (first, end) = server::RawPacket::next_packet(packet.clone());
    assert_eq!(end, packet.len());
    assert_eq!(first.unwrap().data, out);
}

#[test]
fn filling_a_box_fills_exactly_the_box() {
    let mut section = ChunkSection::new();
    section.fill((2, 3, 4), (5, 20, 6), 8);
    for x in 0..16u8 {
        for y in 0..16u8 {
            for z in 0..16u8 {
                let inside = (2..5).contains(&x) && (3..20).contains(&y) && (4..6).contains(&z);
                assert_eq!(section.get_block(x, y, z), if inside { 8 } else { 0 });
            }
        }
    }
    assert_eq!(section.block_count(), 3 * 13 * 2);
    let mut section = ChunkSection::new();
    section.fill((5, 0, 0), (5, 16, 16), 8);
    assert!(matches!(section.block_states(), PalettedContainer::Single(0)));
}

#[test]
fn containers_serialize() {
    let single: BlockPalettedContainer = PalettedContainer::Single(300);
    assert_eq!(single.serialize(), vec![0, 0xAC, 0x02]);
    assert_eq!(serialize_single_paletted(5), vec![0, 5]);
    let biomes: BiomePalettedContainer = PalettedContainer::Single(55);
    assert_eq!(biomes.serialize(), vec![0, 55]);
    let biomes: BiomePalettedContainer = PalettedContainer::Direct(vec![0, 1, 2, 3]);
    assert_eq!(biomes.serialize(), vec![2, 0, 0, 0, 0, 0, 0, 0, 0b1110_0100]);
    let biomes: BiomePalettedContainer = PalettedContainer::Direct(vec![0, 0]);
    assert_eq!(biomes.serialize(), vec![1, 0, 0, 0, 0, 0, 0, 0, 0]);
    let biomes: BiomePalettedContainer = PalettedContainer::Indirect {
        bits_per_entry: 0,
        palette: vec![7],
        data: vec![1],
    };
    assert_eq!(biomes.serialize(), vec![1, 1, 7, 0, 0, 0, 0, 0, 0, 0, 1]);
    let blocks: BlockPalettedContainer = PalettedContainer::Direct(vec![0x7FFF, 1]);
    assert_eq!(blocks.serialize(), vec![15, 0, 0, 0, 0, 0, 0, 0xFF, 0xFF]);
    assert_eq!(serialize_direct_paletted(8, &[1, 2]), vec![8, 0, 0, 0, 0, 0, 0, 2, 1]);
}

#[test]
fn narrow_block_indices_go_out_with_four_bits() {
    let mut section = ChunkSection::new();
    section.set_block(0, 0, 0, 1);
    let out = section.block_states().serialize();
    assert_eq!(out.len(), 1 + 3 + 256 * 8);
    assert_eq!(&out[..4], &[4, 2, 0, 1][..]);
    assert_eq!(&out[4..12], &[0, 0, 0, 0, 0, 0, 0, 1][..]);
    let wide = vec![0u64; 342];
    let out = serialize_block_indirect_paletted(5, &[9], &wide);
    assert_eq!(&out[..3], &[5, 1, 9][..]);
    assert_eq!(out.len(), 3 + 342 * 8);
}

#[test]
fn uniform_light_fills_both_halves() {
    let table = generate_arrays();
    assert_eq!(table[0][0], 0);
    assert_eq!(table[9][100], 0x99);
    assert_eq!(table[15][2047], 0xFF);
    let mut out = vec![];
    LightSection::Single(3).write_to(&mut out);
    assert_eq!(out, vec![0x33; 2048]);
    let mut out = vec![];
    LightSection::Direct(Box::new([5; 2048])).write_to(&mut out);
    assert_eq!(out, vec![5; 2048]);
}

fn dark() -> [LightSection; 26] {
    std::array::from_fn(|_| LightSection::new())
}

#[test]
fn light_is_announced_as_sent_or_dark() {
    let mut light = dark();
    assert_eq!(LevelChunk::light_mask(&light), 0);
    light[0] = LightSection::Single(15);
    light[25] = LightSection::Direct(Box::new([0; 2048]));
    assert_eq!(LevelChunk::light_mask(&light), 1 | (1 << 25));
    let mut out = vec![];
    LevelChunk::write_light_sections(&light, &mut out);
    assert_eq!(out.len(), 1 + 2 * (2 + 2048));
    assert_eq!(&out[..4], &[2, 0x80, 0x10, 0xFF][..]);
    let mut out = vec![];
    LevelChunk::write_bitset(&mut out, 0);
    LevelChunk::write_bitset(&mut out, 0x0102);
    assert_eq!(out, vec![0, 1, 0, 0, 0, 0, 0, 0, 1, 2]);
}

#[test]
fn an_empty_chunk_serializes() {
    let out = LevelChunk::new().serialize(1, -1);
    let mut expected = vec![0, 0, 0, 1, 0xFF, 0xFF, 0xFF, 0xFF, 0];
    expected.extend([0x90, 0x01]);
    for _ in 0..24 {
        expected.extend([0, 0, 0, 0, 0, 0]);
    }
    expected.push(0);
    expected.extend([0, 0]);
    for _ in 0..2 {
        expected.push(1);
        expected.extend(0x3FF_FFFFu64.to_be_bytes());
    }
    expected.extend([0, 0]);
    assert_eq!(out, expected);
}

#[test]
fn chunk_blocks_go_to_their_sections() {
    let mut chunk = LevelChunk::new();
    chunk.set_block(1, -64, 2, 300);
    chunk.set_block(0, 320, 0, 5);
    chunk.set_block(0, -65, 0, 5);
    chunk.set_block(16, 0, 0, 5);
    let out = chunk.serialize(0, 0);
    let data = &out[11..];
    assert_eq!(&data[..2], &[0, 1][..]);
    assert_eq!(&data[2..7], &[4, 2, 0, 0xAC, 0x02][..]);
    let words = &data[7..];
    let index = 2 * 16 + 1;
    assert_eq!(words[(index / 16) * 8 + 7], 0x10);
    let rest = &words[256 * 8..];
    assert_eq!(&rest[..2], &[0, 0][..]);
    assert_eq!(&rest[2..8], &[0, 0, 0, 0, 0, 0][..]);
}

#[test]
fn filling_a_chunk_fills_whole_sections() {
    let mut chunk = LevelChunk::new();
    chunk.fill((0, -64, 0), (16, -32, 16), 1);
    let out = chunk.serialize(0, 0);
    let one = 2 + 4 + 256 * 8 + 2;
    for s in 0..2 {
        let section = &out[11 + s * one..];
        assert_eq!(&section[..6], &[0x10, 0x00, 4, 2, 0, 1][..]);
        assert!(section[6..6 + 256 * 8].iter().all(|b| *b == 0x11));
    }
    assert_eq!(&out[11 + 2 * one..11 + 2 * one + 6], &[0, 0, 0, 0, 0, 0][..]);
}

struct Recorder {
    log: Rc<RefCell<Vec<u64>>>,
    adds: bool,
    label: u64,
}

impl TaskClosure for Recorder {
    fn run(&mut self, level: &mut Level<Self>) {
        self.log.borrow_mut().push(self.label);
        if self.adds {
            self.adds = false;
            level.every_tick(Recorder { log: self.log.clone(), adds: false, label: 99 });
        }
    }
}

struct Notes(Rc<RefCell<Vec<u64>>>);

impl Notes {
    fn new() -> Self {
        Notes(Rc::new(RefCell::new(vec![])))
    }

    fn recorder(&self, label: u64) -> Recorder {
        Recorder { log: self.0.clone(), adds: false, label }
    }

    fn take(&self) -> Vec<u64> {
        std::mem::take(&mut *self.0.borrow_mut())
    }
}

#[test]
fn tasks_run_by_their_schedules_from_last_to_first() {
    let notes = Notes::new();
    let mut level: Level<Recorder> = Level::new(Some(1));
    level.every_tick(notes.recorder(1));
    level.every_n(notes.recorder(2), NonZeroU64::new(3).unwrap());
    level.once(notes.recorder(3), 2);
    level.register_task((notes.recorder(4), TaskSchedule::Once(0)));
    level.tick();
    assert_eq!(notes.take(), vec![4, 2, 1]);
    level.tick();
    assert_eq!(notes.take(), vec![1]);
    level.tick();
    assert_eq!(notes.take(), vec![3, 1]);
    level.tick();
    assert_eq!(notes.take(), vec![2, 1]);
    level.once(notes.recorder(5), 1);
    level.tick();
    assert_eq!(notes.take(), vec![1]);
}

#[test]
fn a_task_may_add_tasks() {
    let notes = Notes::new();
    let mut level: Level<Recorder> = Level::new(Some(1));
    level.once(Recorder { adds: true, ..notes.recorder(1) }, 0);
    level.tick();
    assert_eq!(notes.take(), vec![1]);
    level.tick();
    assert_eq!(notes.take(), vec![99]);
}

#[test]
fn removed_tasks_leave_the_others_in_order() {
    let notes = Notes::new();
    let mut level: Level<Recorder> = Level::new(Some(1));
    for label in 0..6 {
        if label % 2 == 0 {
            level.once(notes.recorder(label), 0);
        } else {
            level.every_tick(notes.recorder(label));
        }
    }
    level.tick();
    assert_eq!(notes.take(), vec![5, 4, 3, 2, 1, 0]);
    level.tick();
    assert_eq!(notes.take(), vec![5, 3, 1]);
}

#[test]
fn an_idle_tick_only_advances_the_clock() {
    let notes = Notes::new();
    let mut level: Level<Recorder> = Level::new(Some(1));
    level.once(notes.recorder(1), 1);
    level.tick();
    assert_eq!(notes.take(), Vec::<u64>::new());
    level.tick();
    assert_eq!(notes.take(), vec![1]);
}

#[test]
fn zero_is_no_period() {
    assert!(NonZeroU64::new(0).is_none());
    assert_eq!(NonZeroU64::new(5).unwrap().get(), 5);
}

#[test]
fn chunks_are_made_once_from_place_and_seed() {
    let mut level: Level<Recorder> = Level::new(Some(-7));
    assert!(level.get_chunk(3, -4).is_none());
    assert!(level.serialize(3, -4).is_none());
    assert!(level.get_chunk_mut(3, -4).is_none());
    let mut asked = vec![];
    let first = level
        .get_or_create_chunk((3, -4), |x, z, seed| {
            asked.push((x, z, seed));
            let mut chunk = LevelChunk::new();
            chunk.set_block(0, 0, 0, 1);
            chunk
        })
        .serialize(3, -4);
    assert_eq!(asked, vec![(3, -4, -7)]);
    let second = level
        .get_or_create_chunk((3, -4), |_, _, _| panic!("the chunk is there already"))
        .serialize(3, -4);
    assert_eq!(first, second);
    assert_eq!(level.serialize(3, -4), Some(first.clone()));
    assert!(level.get_chunk(-4, 3).is_none());
    level.get_chunk_mut(3, -4).unwrap().set_block(0, 0, 0, 0);
    assert_ne!(level.get_chunk(3, -4).unwrap().serialize(3, -4), first);
}

#[test]
fn levels_without_a_seed_get_random_ones() {
    let mut seeds = vec![];
    for _ in 0..8 {
        let mut level: Level<Recorder> = Level::new(None);
        level.get_or_create_chunk((0, 0), |_, _, seed| {
            seeds.push(seed);
            LevelChunk::new()
        });
    }
    assert!(seeds.iter().any(|s| *s != seeds[0]));
}
