use histongram::{WindowBuffer, WindowCollector};

fn windows_in_cycles(len: usize, input_size: usize, max_len: usize, capacity: usize) -> Vec<Vec<usize>> {
    let input: Vec<usize> = (0..input_size).collect();
    let mut sink = WindowCollector::new(len);
    WindowBuffer::with_capacity(max_len, capacity)
        .unwrap()
        .iterate(&input, &mut sink);
    sink.into_windows()
}

fn windows_at_once(len: usize, input_size: usize) -> Vec<Vec<usize>> {
    let input: Vec<usize> = (0..input_size).collect();
    input.windows(len).map(|s| s.to_vec()).collect()
}

#[test]
fn last_in_buffer() {
    let mut wb = WindowBuffer::with_capacity(3, 6).unwrap();
    let source: Vec<usize> = (0..100).collect();
    let mut pos: usize = 0;
    wb.fill(&source, &mut pos);

    assert_eq!(wb.first_in_overflow(3), 6);
    assert_eq!(wb.first_in_overflow(2), 5);
    assert_eq!(wb.first_in_overflow(1), 4);

    wb.consume();
    assert_eq!(wb.first_in_overflow(3), 2);
    assert_eq!(wb.first_in_overflow(2), 2);
    assert_eq!(wb.first_in_overflow(1), 2);
}

#[test]
fn basic_ops() {
    let input = vec![1, 2, 3, 4, 5, 6, 7, 8];
    let mut pos: usize = 0;
    let mut wb = WindowBuffer::with_capacity(3, 6).unwrap();
    wb.refill(&input, &mut pos);

    {
        let w = wb.windows(1);
        assert_eq!(w.len(), 4);
        assert_eq!(w[0], [1].as_slice());
        assert_eq!(w[1], [2].as_slice());
        assert_eq!(w[2], [3].as_slice());
        assert_eq!(w[3], [4].as_slice());

        let w = wb.windows(3);
        assert_eq!(w.len(), 4);
        assert_eq!(w[0], [1, 2, 3].as_slice());
        assert_eq!(w[1], [2, 3, 4].as_slice());
        assert_eq!(w[2], [3, 4, 5].as_slice());
        assert_eq!(w[3], [4, 5, 6].as_slice());
    }

    wb.refill(&input, &mut pos);

    {
        let w = wb.windows(1);
        assert_eq!(w.len(), 4);
        assert_eq!(w[0], [5].as_slice());
        assert_eq!(w[1], [6].as_slice());
        assert_eq!(w[2], [7].as_slice());
        assert_eq!(w[3], [8].as_slice());

        let w = wb.windows(2);
        assert_eq!(w.len(), 3);
        assert_eq!(w[0], [5, 6].as_slice());
        assert_eq!(w[1], [6, 7].as_slice());
        assert_eq!(w[2], [7, 8].as_slice());

        let w = wb.windows(3);
        assert_eq!(w.len(), 2);
        assert_eq!(w[0], [5, 6, 7].as_slice());
        assert_eq!(w[1], [6, 7, 8].as_slice());
    }

    wb.refill(&input, &mut pos);

    {
        assert!(wb.windows(1).is_empty());
        assert!(wb.windows(2).is_empty());
        assert!(wb.windows(3).is_empty());
    }
}

#[test]
fn eight_elements_windows_of_three() {
    let expected: Vec<Vec<usize>> = vec![
        vec![0, 1, 2],
        vec![1, 2, 3],
        vec![2, 3, 4],
        vec![3, 4, 5],
        vec![4, 5, 6],
        vec![5, 6, 7],
    ];
    assert_eq!(windows_in_cycles(3, 8, 3, 6), expected);
}

#[test]
fn cycles_give_the_windows_of_one_pass() {
    for input_size in 0..40 {
        for max_len in 1..6 {
            for extra in 0..5 {
                let capacity = 2 * max_len + extra;
                for len in 1..=max_len {
                    assert_eq!(
                        windows_in_cycles(len, input_size, max_len, capacity),
                        windows_at_once(len, input_size),
                        "len {len}, input {input_size}, max_len {max_len}, capacity {capacity}"
                    );
                }
            }
        }
    }
}

#[test]
fn capacity_below_twice_max_len_is_refused() {
    assert!(WindowBuffer::<usize>::with_capacity(3, 5).is_none());
    assert!(WindowBuffer::<usize>::with_capacity(1, 1).is_none());
    assert!(WindowBuffer::<usize>::with_capacity(3, 6).is_some());
    assert!(WindowBuffer::<usize>::with_capacity(0, 0).is_some());
}

#[test]
fn new_buffer_fills_a_page() {
    let wb = WindowBuffer::<u64>::new(3);
    assert_eq!(wb.capacity(), 512);
    assert_eq!(wb.max_len(), 3);
    assert_eq!(wb.len(), 0);
    let big = WindowBuffer::<u64>::new(1000);
    assert_eq!(big.capacity(), 2000);
}

#[test]
fn iterate_over_words() {
    let text = "The quick brown fox jumps over the lazy dog";
    let input: Vec<&'static str> = text.split_whitespace().collect();
    let mut words = WindowCollector::new(1);
    let mut pairs = WindowCollector::new(2);
    let mut quint = WindowCollector::new(5);
    WindowBuffer::new(5).iterate(&input, &mut words);
    WindowBuffer::new(5).iterate(&input, &mut pairs);
    WindowBuffer::new(5).iterate(&input, &mut quint);
    let (words, pairs, quint) = (words.into_windows(), pairs.into_windows(), quint.into_windows());

    assert_eq!(words.len(), 9);
    assert_eq!(pairs[0], ["The", "quick"]);
    assert_eq!(quint[4], ["jumps", "over", "the", "lazy", "dog"]);
}

#[test]
fn empty_input_gives_no_windows() {
    let input: Vec<usize> = Vec::new();
    let mut sink = WindowCollector::new(2);
    WindowBuffer::with_capacity(3, 6).unwrap().iterate(&input, &mut sink);
    assert!(sink.into_windows().is_empty());
}

#[test]
fn capacity_exactly_twice_max_len_with_longest_windows() {
    for input_size in 0..30 {
        assert_eq!(windows_in_cycles(4, input_size, 4, 8), windows_at_once(4, input_size));
        assert_eq!(windows_in_cycles(1, input_size, 4, 8), windows_at_once(1, input_size));
    }
}

#[test]
fn collect_matches_one_pass() {
    let input: Vec<usize> = (0..8).collect();
    let got = WindowBuffer::with_capacity(3, 6).unwrap().collect(&input, 3);
    assert_eq!(got, windows_at_once(3, 8));
    let words: Vec<usize> = (0..1000).collect();
    let got = WindowBuffer::new(7).collect(&words, 7);
    assert_eq!(got, windows_at_once(7, 1000));
}
