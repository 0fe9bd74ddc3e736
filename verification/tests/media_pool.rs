use ove::media::frame::{FrameError, PixelFormat};
use ove::media::pool::{FramePool, PoolKey};

fn key(w: u32, h: u32) -> PoolKey {
    PoolKey::from_strides(
        PixelFormat::Yuv420p,
        w,
        h,
        &[w as usize, (w / 2) as usize, (w / 2) as usize],
    )
}

#[test]
fn acquire_reuse_bumps_generation() {
    let mut pool = FramePool::new(4);
    let k = key(320, 240);
    let g0 = pool.acquire(&k, 320 * 240 * 3 / 2, vec![320, 160, 160]);
    assert_eq!(pool.current_generation(&k), 0, "fresh alloc: gen 0");
    pool.release(g0);
    let g1 = pool.acquire(&k, 320 * 240 * 3 / 2, vec![320, 160, 160]);
    assert_eq!(pool.current_generation(&k), 1, "recycle bumps generation");
    assert_eq!(g1.generation, 1);
    assert_eq!(pool.stats().recycles, 1);
    pool.release(g1);
}

#[test]
fn stale_hold_is_detectable() {
    let mut pool = FramePool::new(4);
    let k = key(320, 240);
    let a = pool.acquire(&k, 320 * 240 * 3 / 2, vec![320, 160, 160]);
    pool.release(a); // recycle -> gen 1
    let _b = pool.acquire(&k, 320 * 240 * 3 / 2, vec![320, 160, 160]); // reused at gen 1
    // a consumer that still holds gen 0 is stale:
    assert_eq!(pool.check_live(&k, 0), Err(FrameError::StaleFrame { held: 0, current: 1 }));
    assert!(pool.check_live(&k, 1).is_ok());
}

#[test]
fn release_frees_resources_and_caps_pool() {
    let mut pool = FramePool::new(1);
    let k = key(64, 64);
    let a = pool.acquire(&k, 64 * 64 * 3 / 2, vec![64, 32, 32]);
    let b = pool.acquire(&k, 64 * 64 * 3 / 2, vec![64, 32, 32]);
    assert_eq!(pool.stats().live, 2);
    pool.release(a);
    pool.release(b); // second release exceeds cap=1 -> dropped, not pooled
    let s = pool.stats();
    assert_eq!(s.live, 0);
    assert_eq!(s.pooled, 1, "pool cap respected");
    // different byte class = different key (no cross-size reuse)
    let big = PoolKey::from_strides(PixelFormat::Yuv420p, 128, 128, &[128usize, 64, 64]);
    let c = pool.acquire(&big, 128 * 128 * 3 / 2, vec![128, 64, 64]);
    assert_eq!(pool.stats().live, 1);
    pool.release(c);
    let s = pool.stats();
    assert_eq!(s.keys, 2, "two distinct buffer classes pooled separately");
}

#[test]
fn byte_class_rounds_up_to_64() {
    let k = PoolKey::from_strides(PixelFormat::Rgba, 10, 10, &[40, 1]);
    assert_eq!(k.byte_class, 64);
    let k = PoolKey::from_strides(PixelFormat::Rgba, 10, 10, &[64]);
    assert_eq!(k.byte_class, 64);
    let k = PoolKey::from_strides(PixelFormat::Rgba, 10, 10, &[]);
    assert_eq!(k.byte_class, 0);
}

#[test]
fn release_bytes_checks_generation_and_buffers_come_back_zeroed() {
    let mut pool = FramePool::new(2);
    let k = key(16, 16);
    let mut a = pool.acquire(&k, 8, vec![16, 8, 8]);
    assert_eq!(a.data, vec![0u8; 8]);
    assert_eq!(a.strides(), &[16usize, 8, 8][..]);
    a.data[0] = 9;
    assert!(pool.release_bytes(&k, a.data, 0).is_ok());
    assert_eq!(pool.stats().pooled, 1);
    let b = pool.acquire(&k, 8, vec![16, 8, 8]);
    assert_eq!(b.data, vec![0u8; 8], "a recycled buffer is handed out zeroed");
    assert_eq!(b.generation, 1);
    // a release tagged with the old generation is refused and changes nothing
    assert_eq!(
        pool.release_bytes(&k, vec![0u8; 4], 0),
        Err(FrameError::StaleFrame { held: 0, current: 1 })
    );
    assert_eq!(pool.stats().pooled, 0);
    let bytes = b.into_frame_bytes();
    assert_eq!(bytes.data, vec![0u8; 8], "the frame's bytes are handed over whole");
    assert_eq!(bytes.strides, vec![16, 8, 8]);
}

#[test]
fn frame_bytes_carry_the_written_planes() {
    let mut pool = FramePool::new(4);
    let k = key(4, 2);
    let mut b = pool.acquire(&k, 12, vec![4, 2, 2]);
    for (i, x) in b.data.iter_mut().enumerate() {
        *x = i as u8 + 1;
    }
    let fb = b.into_frame_bytes();
    assert_eq!(fb.data, (1..=12u8).collect::<Vec<u8>>());
    assert_eq!(fb.strides, vec![4, 2, 2]);
}

#[test]
fn released_buffer_is_taken_only_when_it_fits() {
    let mut pool = FramePool::new(4);
    let k = key(320, 240);
    let a = pool.acquire(&k, 64, vec![320, 160, 160]);
    pool.release(a);
    // asking for more than the pooled buffer holds: it is dropped, no recycle
    let big = pool.acquire(&k, 1 << 20, vec![320, 160, 160]);
    assert_eq!(big.generation, 0);
    assert_eq!(pool.stats().recycles, 0);
    assert_eq!(pool.stats().pooled, 0);
    pool.release(big);
    // now a fitting request reuses it and bumps the generation
    let again = pool.acquire(&k, 64, vec![320, 160, 160]);
    assert_eq!(again.generation, 1);
    assert_eq!(pool.stats().recycles, 1);
}
