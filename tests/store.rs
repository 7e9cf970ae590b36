use ray_tracing::camera::collect_pixels;
use ray_tracing::itertools::Itertools;
use ray_tracing::material::Lambertian;
use ray_tracing::texture::TextureStore;

#[test]
fn texture_store_hands_out_positions() {
    let mut store: TextureStore<&str> = TextureStore::new();
    let a = store.add("checker");
    let b = store.add("solid");
    assert_eq!(a.index(), 0);
    assert_eq!(b.index(), 1);
    assert_eq!(*store.get(b), "solid");
    assert_eq!(*store.get(a), "checker");
    assert_eq!(store.len(), 2);
}

#[test]
fn lambertian_keeps_its_texture() {
    let mut store: TextureStore<u32> = TextureStore::new();
    let _ = store.add(1);
    let h = store.add(2);
    let m = Lambertian::new(h);
    assert_eq!(m.texture, h);
    assert_eq!(*store.get(m.texture), 2);
}

#[test]
fn pixels_land_row_major() {
    let width = 3usize;
    let height = 2usize;
    let coords = (0..height).collect::<Vec<_>>().cartesian_product((0..width).collect::<Vec<_>>()).collect_vec();
    let pixels: Vec<(usize, usize, u32)> =
        coords.iter().rev().map(|&(y, x)| (x, y, (10 * y + x) as u32)).collect();
    let buffer = collect_pixels(width, height, pixels, 99);
    assert_eq!(buffer, vec![0, 1, 2, 10, 11, 12]);
}

#[test]
fn unpainted_slots_keep_fill_and_last_write_wins() {
    let pixels = vec![(1usize, 0usize, 'a'), (0, 1, 'b'), (1, 0, 'c')];
    let buffer = collect_pixels(2, 2, pixels, '.');
    assert_eq!(buffer, vec!['.', 'c', 'b', '.']);
    assert_eq!(collect_pixels(0, 5, Vec::<(usize, usize, u8)>::new(), 0), Vec::<u8>::new());
}
