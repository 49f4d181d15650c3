use file_chunker::{
    chunk_artifact_path, failed_indices, file_preprocess, get_byte_split_length,
    get_file_name_from_path, get_final_byte_vec, make_folder_path, plan, read_outcome,
    split_bytes, write_outcome, ByteHandler, ChunkError, ChunkMap,
};

struct Payload {
    bytes: Vec<u8>,
}

impl ByteHandler for Payload {
    fn get_bytes(&self) -> Vec<u8> {
        self.bytes.clone()
    }

    fn from_bytes(a: Vec<u8>) -> Self {
        Payload { bytes: a }
    }
}

fn lengths(total: usize, k: usize) -> Vec<usize> {
    plan(total, k).unwrap().iter().map(|r| r.end - r.start).collect()
}

fn filled_map(chunks: &[Vec<u8>], order: &[usize]) -> ChunkMap {
    let mut map = ChunkMap::new(chunks.len());
    for &i in order {
        map.insert(i, chunks[i].clone());
    }
    map
}

#[test]
fn split_length_is_integer_division() {
    assert_eq!(get_byte_split_length(17, 5), 3);
    assert_eq!(get_byte_split_length(10, 3), 3);
    assert_eq!(get_byte_split_length(2, 5), 0);
}

#[test]
fn last_chunk_takes_the_remainder() {
    assert_eq!(lengths(17, 5), vec![3, 3, 3, 3, 5]);
    assert_eq!(lengths(10, 3), vec![3, 3, 4]);
}

#[test]
fn hundred_bytes_in_four_chunks() {
    assert_eq!(lengths(100, 4), vec![25, 25, 25, 25]);
    let bytes: Vec<u8> = (0..100u8).collect();
    let chunks = split_bytes(&bytes, 4).unwrap();
    assert_eq!(chunks.len(), 4);
    let map = filled_map(&chunks, &[0, 1, 2, 3]);
    assert_eq!(get_final_byte_vec(&map).unwrap(), bytes);
}

#[test]
fn plan_ranges_partition_the_buffer() {
    let ranges = plan(17, 5).unwrap();
    assert_eq!(ranges[0].start, 0);
    for i in 0..4 {
        assert_eq!(ranges[i].end, ranges[i + 1].start);
    }
    assert_eq!(ranges[4].end, 17);
    assert_eq!(ranges[4].start, 12);
}

#[test]
fn plan_is_deterministic() {
    assert_eq!(plan(1000, 7).unwrap(), plan(1000, 7).unwrap());
}

#[test]
fn zero_split_count_is_refused() {
    assert_eq!(plan(10, 0), Err(ChunkError::InvalidArgument));
    assert_eq!(split_bytes(&vec![1, 2, 3], 0), Err(ChunkError::InvalidArgument));
}

#[test]
fn empty_buffer_gives_empty_chunks() {
    assert_eq!(lengths(0, 3), vec![0, 0, 0]);
    let chunks = split_bytes(&Vec::new(), 3).unwrap();
    assert_eq!(chunks.len(), 3);
    let map = filled_map(&chunks, &[2, 0, 1]);
    assert_eq!(get_final_byte_vec(&map).unwrap(), Vec::<u8>::new());
}

#[test]
fn fewer_bytes_than_chunks() {
    assert_eq!(lengths(2, 5), vec![0, 0, 0, 0, 2]);
}

#[test]
fn single_chunk_is_whole_buffer() {
    let bytes = vec![9u8, 8, 7];
    let chunks = split_bytes(&bytes, 1).unwrap();
    assert_eq!(chunks, vec![bytes.clone()]);
}

#[test]
fn arrival_order_does_not_matter() {
    let bytes: Vec<u8> = (0..23u8).collect();
    let chunks = split_bytes(&bytes, 5).unwrap();
    let forward = get_final_byte_vec(&filled_map(&chunks, &[0, 1, 2, 3, 4])).unwrap();
    let reverse = get_final_byte_vec(&filled_map(&chunks, &[4, 3, 2, 1, 0])).unwrap();
    let shuffled = get_final_byte_vec(&filled_map(&chunks, &[3, 0, 4, 2, 1])).unwrap();
    assert_eq!(forward, bytes);
    assert_eq!(reverse, bytes);
    assert_eq!(shuffled, bytes);
}

#[test]
fn insert_all_stores_every_arrival() {
    let bytes: Vec<u8> = (10..20u8).collect();
    let chunks = split_bytes(&bytes, 3).unwrap();
    let mut map = ChunkMap::new(3);
    map.insert_all(vec![(2, chunks[2].clone()), (0, chunks[0].clone()), (1, chunks[1].clone())]);
    assert_eq!(map.expected(), 3);
    assert!(map.contains(0) && map.contains(1) && map.contains(2));
    assert_eq!(get_final_byte_vec(&map).unwrap(), bytes);
}

#[test]
fn missing_chunk_is_a_partial_read() {
    let bytes: Vec<u8> = (0..9u8).collect();
    let chunks = split_bytes(&bytes, 3).unwrap();
    let map = filled_map(&chunks, &[0, 2]);
    assert!(!map.contains(1));
    assert_eq!(
        get_final_byte_vec(&map),
        Err(ChunkError::PartialRead { expected: 3, found: 2 })
    );
}

#[test]
fn artifact_paths_follow_the_naming_convention() {
    assert_eq!(make_folder_path("./preprocess", "json_file"), "./preprocess/json_file");
    assert_eq!(chunk_artifact_path("./preprocess", "json_file", 0), "./preprocess/json_file/0.json");
    assert_eq!(chunk_artifact_path("./preprocess", "json_file", 12), "./preprocess/json_file/12.json");
    assert_eq!(chunk_artifact_path("out", "a", 407), "out/a/407.json");
}

#[test]
fn file_name_is_the_path_stem() {
    assert_eq!(get_file_name_from_path("./json_data/json_file.json"), Ok("json_file".to_string()));
    assert_eq!(get_file_name_from_path("archive.tar.gz"), Ok("archive.tar".to_string()));
    assert_eq!(get_file_name_from_path("/"), Err(ChunkError::InvalidArgument));
}

#[test]
fn preprocess_plans_one_artifact_per_chunk() {
    let bytes: Vec<u8> = (0..100u8).collect();
    let p = file_preprocess::<Payload>(&bytes, "./json_data/json_file.json", "./preprocess", 4).unwrap();
    assert_eq!(p.folder, "./preprocess/json_file");
    assert_eq!(p.artifacts.len(), 4);
    for (i, a) in p.artifacts.iter().enumerate() {
        assert_eq!(a.index, i);
        assert_eq!(a.path, format!("./preprocess/json_file/{}.json", i));
        assert_eq!(a.bytes, bytes[i * 25..(i + 1) * 25].to_vec());
    }
}

#[test]
fn preprocess_with_more_chunks_than_bytes() {
    let bytes = vec![1u8, 2, 3, 4, 5];
    let p = file_preprocess::<Payload>(&bytes, "data.json", "dst", 13).unwrap();
    assert_eq!(p.artifacts.len(), 13);
    assert!(p.artifacts[..12].iter().all(|a| a.bytes.is_empty()));
    assert_eq!(p.artifacts[12].bytes, bytes);
    assert_eq!(p.artifacts[12].path, "dst/data/12.json");
}

#[test]
fn preprocess_refuses_bad_arguments() {
    let bytes = vec![1u8, 2, 3];
    assert!(matches!(
        file_preprocess::<Payload>(&bytes, "data.json", "dst", 0),
        Err(ChunkError::InvalidArgument)
    ));
    assert!(matches!(
        file_preprocess::<Payload>(&bytes, "/", "dst", 2),
        Err(ChunkError::InvalidArgument)
    ));
}

#[test]
fn failures_are_listed_in_order() {
    assert_eq!(failed_indices(&vec![true, false, true, false, false]), vec![1, 3, 4]);
    assert_eq!(failed_indices(&vec![true, true]), Vec::<usize>::new());
}

#[test]
fn write_outcome_names_all_failed_chunks() {
    assert_eq!(write_outcome(&vec![true, true, true]), Ok(()));
    assert_eq!(
        write_outcome(&vec![false, true, false]),
        Err(ChunkError::ChunkWriteFailed(vec![0, 2]))
    );
}

#[test]
fn read_outcome_reports_failures_then_joins() {
    let bytes: Vec<u8> = (0..10u8).collect();
    let chunks = split_bytes(&bytes, 3).unwrap();
    let full = filled_map(&chunks, &[1, 2, 0]);
    assert_eq!(read_outcome(&vec![true, true, true], &full), Ok(bytes.clone()));
    let partial = filled_map(&chunks, &[0, 2]);
    assert_eq!(
        read_outcome(&vec![true, false, true], &partial),
        Err(ChunkError::ChunkReadFailed(vec![1]))
    );
    assert_eq!(
        read_outcome(&vec![true, true, true], &partial),
        Err(ChunkError::PartialRead { expected: 3, found: 2 })
    );
}

#[test]
fn payload_rebuilds_from_joined_bytes() {
    let bytes: Vec<u8> = (0..50u8).collect();
    let chunks = split_bytes(&bytes, 13).unwrap();
    let order: Vec<usize> = (0..13).rev().collect();
    let joined = get_final_byte_vec(&filled_map(&chunks, &order)).unwrap();
    let payload = Payload::from_bytes(joined);
    assert_eq!(payload.get_bytes(), bytes);
}
