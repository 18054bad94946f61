use drop_size::paths::{
    decimal, frame_index, index_digits, new_frame_file, new_frames_dir, new_video_file, old_frame_file,
    old_frames_dir, sizes_file,
};
use drop_size::schedule::{chunk, chunk_size, reference_frame};
use drop_size::sizes::{collect, header, merge, row, StatisticMode};

#[test]
fn paths_lie_below_results() {
    assert_eq!(old_frames_dir("drop.mp4"), "results/drop.mp4/frames/old");
    assert_eq!(new_frames_dir("drop.mp4"), "results/drop.mp4/frames/new");
    assert_eq!(sizes_file("drop.mp4"), "results/drop.mp4/drop.mp4_sizes.csv");
    assert_eq!(new_video_file("drop.mp4"), "results/drop.mp4/drop.mp4");
    assert_eq!(old_frames_dir(""), "results//frames/old");
}

#[test]
fn decimal_writes_every_digit() {
    assert_eq!(decimal(0), "0");
    assert_eq!(decimal(7), "7");
    assert_eq!(decimal(10), "10");
    assert_eq!(decimal(1234567890), "1234567890");
    assert_eq!(decimal(u32::MAX), "4294967295");
}

#[test]
fn digits_of_the_frame_count() {
    assert_eq!(index_digits(0), 1);
    assert_eq!(index_digits(9), 1);
    assert_eq!(index_digits(10), 2);
    assert_eq!(index_digits(999), 3);
    assert_eq!(index_digits(1000), 4);
    assert_eq!(index_digits(u32::MAX), 10);
}

#[test]
fn frame_index_is_padded_with_zeros() {
    assert_eq!(frame_index(7, 1500), "0007");
    assert_eq!(frame_index(1500, 1500), "1500");
    assert_eq!(frame_index(0, 9), "0");
    assert_eq!(frame_index(12345, 99), "12345");
}

#[test]
fn frame_files_are_numbered() {
    assert_eq!(
        old_frame_file("drop.mp4", "0007", "jpg"),
        "results/drop.mp4/frames/old/drop.mp4_0007.jpg"
    );
    assert_eq!(
        new_frame_file("drop.mp4", "0007", "png"),
        "results/drop.mp4/frames/new/drop.mp4_0007.png"
    );
}

#[test]
fn chunks_are_rounded_up() {
    assert_eq!(chunk_size(10, 4), 3);
    assert_eq!(chunk_size(12, 4), 3);
    assert_eq!(chunk_size(13, 4), 4);
    assert_eq!(chunk_size(0, 4), 0);
    assert_eq!(chunk_size(5, 1), 5);
    assert_eq!(chunk_size(u32::MAX, u32::MAX), 1);
    assert_eq!(chunk_size(u32::MAX, 1), u32::MAX);
}

#[test]
fn chunks_split_the_frames() {
    assert_eq!(chunk(0, 10, 4), Some((1, 3)));
    assert_eq!(chunk(1, 10, 4), Some((4, 6)));
    assert_eq!(chunk(2, 10, 4), Some((7, 9)));
    assert_eq!(chunk(3, 10, 4), Some((10, 10)));
    assert_eq!(chunk(0, 5, 1), Some((1, 5)));
    assert_eq!(chunk(2, 5, 4), Some((5, 5)));
    assert_eq!(chunk(3, 5, 4), None);
    assert_eq!(chunk(0, 0, 3), None);
    assert_eq!(chunk(u32::MAX - 1, u32::MAX, u32::MAX), Some((u32::MAX, u32::MAX)));
}

#[test]
fn every_frame_has_one_worker() {
    for fcount in 0..40u32 {
        for threads in 1..12u32 {
            let mut next = 1;
            for i in 0..threads {
                if let Some((first, last)) = chunk(i, fcount, threads) {
                    assert_eq!(first, next);
                    assert!(first <= last);
                    next = last + 1;
                }
            }
            assert_eq!(next, fcount + 1);
        }
    }
}

#[test]
fn reference_is_halfway_back() {
    assert_eq!(reference_frame(1), 1);
    assert_eq!(reference_frame(2), 1);
    assert_eq!(reference_frame(3), 1);
    assert_eq!(reference_frame(4), 2);
    assert_eq!(reference_frame(9), 4);
    assert_eq!(reference_frame(0), 1);
    assert_eq!(reference_frame(u32::MAX), u32::MAX / 2);
}

#[test]
fn merge_sorts_by_frame() {
    let parts = vec![vec![(7u32, 0.5f32), (9, 0.25)], vec![], vec![(1, 1.5), (4, 2.5)], vec![(5, 3.5)]];
    assert_eq!(merge(&parts), vec![(1, 1.5), (4, 2.5), (5, 3.5), (7, 0.5), (9, 0.25)]);
    let none: Vec<Vec<(u32, f32)>> = vec![];
    assert_eq!(merge(&none), vec![]);
}

#[test]
fn merge_keeps_rows_of_one_frame_in_their_order() {
    let parts = vec![vec![(2u32, 'a'), (1, 'b')], vec![(2, 'c'), (1, 'd'), (2, 'e')]];
    assert_eq!(merge(&parts), vec![(1, 'b'), (1, 'd'), (2, 'a'), (2, 'c'), (2, 'e')]);
}

#[test]
fn rows_do_not_depend_on_the_number_of_workers() {
    let measured: Vec<u32> = (1..=50u32).filter(|f| f % 3 != 0).collect();
    let mut tables = Vec::new();
    for threads in 1..=8u32 {
        let mut parts = Vec::new();
        for i in (0..threads).rev() {
            let mut part = Vec::new();
            if let Some((first, last)) = chunk(i, 50, threads) {
                for frame in first..=last {
                    if frame % 3 != 0 {
                        part.push((frame, frame as f32 * 0.5));
                    }
                }
            }
            parts.push(part);
        }
        tables.push(merge(&parts));
    }
    for table in &tables {
        assert_eq!(table.iter().map(|row| row.0).collect::<Vec<u32>>(), measured);
        assert!(table.windows(2).all(|pair| pair[0].0 < pair[1].0));
        assert_eq!(table, &tables[0]);
    }
}

#[test]
fn header_names_the_columns() {
    assert_eq!(header(StatisticMode::Rms), "frame,size");
    assert_eq!(
        header(StatisticMode::FiveNumber),
        "frame,min,lower_quartile,median,higher_quartile,max,mean,center_x,center_y"
    );
}

#[test]
fn row_joins_with_commas() {
    assert_eq!(row(12, &vec!["1.5".to_string(), "2".to_string()]), "12,1.5,2");
    assert_eq!(row(0, &vec![]), "0");
    assert_eq!(row(3, &vec![String::new()]), "3,");
}

#[test]
fn collect_numbers_the_frames_that_have_a_result() {
    assert_eq!(collect(7, &vec![Some('a'), None, None, Some('b'), Some('c')]), vec![(7, 'a'), (10, 'b'), (11, 'c')]);
    assert_eq!(collect(1, &vec![None::<char>, None]), vec![]);
    assert_eq!(collect(u32::MAX, &vec![Some(1.5f32)]), vec![(u32::MAX, 1.5)]);
    assert_eq!(collect(3, &Vec::<Option<u8>>::new()), vec![]);
}

#[test]
fn the_table_is_the_same_for_any_number_of_workers() {
    let fcount = 37u32;
    let measured: Vec<Option<f32>> =
        (1..=fcount).map(|frame| if frame % 4 == 1 { None } else { Some(frame as f32 / 8.0) }).collect();
    let whole = collect(1, &measured);
    assert_eq!(whole.len(), 27);
    assert!(whole.windows(2).all(|pair| pair[0].0 < pair[1].0));
    for threads in 1..=45u32 {
        let mut parts = Vec::new();
        for i in 0..threads {
            parts.push(match chunk(i, fcount, threads) {
                Some((first, last)) => collect(first, &measured[first as usize - 1..last as usize].to_vec()),
                None => collect(1, &vec![]),
            });
        }
        assert_eq!(merge(&parts), whole);
        let text: Vec<String> = merge(&parts).iter().map(|(frame, size)| row(*frame, &vec![size.to_string()])).collect();
        assert_eq!(text[0], "2,0.25");
        assert_eq!(text[26], "36,4.5");
    }
}
