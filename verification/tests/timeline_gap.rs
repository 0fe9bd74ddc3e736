use ove::timeline::gap::GapBuffer;

fn contents(g: &GapBuffer<u32>) -> Vec<u32> {
    (0..g.len()).map(|i| *g.get(i)).collect()
}

#[test]
fn gap_buffer_edits_in_logical_order() {
    let mut g: GapBuffer<u32> = GapBuffer::with_capacity(2);
    assert!(g.is_empty());
    g.insert(0, 10);
    g.insert(1, 30);
    g.insert(1, 20); // grows: capacity doubles
    assert_eq!(contents(&g), vec![10, 20, 30]);
    g.insert(0, 5);
    g.insert(4, 40);
    assert_eq!(contents(&g), vec![5, 10, 20, 30, 40]);
    assert_eq!(g.remove(2), 20);
    assert_eq!(contents(&g), vec![5, 10, 30, 40]);
    g.set(3, 41);
    g.move_gap(0);
    assert_eq!(contents(&g), vec![5, 10, 30, 41]);
    g.move_gap(4);
    assert_eq!(contents(&g), vec![5, 10, 30, 41]);
    assert_eq!(g.remove(0), 5);
    assert_eq!(g.remove(2), 41);
    assert_eq!(contents(&g), vec![10, 30]);
    assert_eq!(g.len(), 2);
}

#[test]
fn gap_buffer_many_edits_match_a_vector() {
    let mut g: GapBuffer<u32> = GapBuffer::with_capacity(1);
    let mut v: Vec<u32> = Vec::new();
    let mut x: u64 = 7;
    for step in 0..500u32 {
        x ^= x << 13;
        x ^= x >> 7;
        x ^= x << 17;
        if v.is_empty() || x % 3 != 0 {
            let i = (x as usize / 3) % (v.len() + 1);
            g.insert(i, step);
            v.insert(i, step);
        } else {
            let i = (x as usize / 3) % v.len();
            assert_eq!(g.remove(i), v.remove(i));
        }
        assert_eq!(contents(&g), v);
    }
}
