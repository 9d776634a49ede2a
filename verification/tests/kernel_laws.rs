use ct_thumbnail::kernel::avg_two_u16;
use ct_thumbnail::kernel::avg_two_u8;
use ct_thumbnail::kernel::downscale_half_u16;
use ct_thumbnail::kernel::downscale_half_u8;

#[test]
fn downscale_all_zero_gives_zero() {
    let src: Vec<u8> = vec![0, 0, 0, 0];
    let dst = downscale_half_u8(&src, 2, 2);
    assert_eq!(dst, vec![0]);
}

#[test]
fn downscale_all_max_gives_max_8bit() {
    let src: Vec<u8> = vec![255, 255, 255, 255];
    let dst = downscale_half_u8(&src, 2, 2);
    assert_eq!(dst, vec![255]);
}

#[test]
fn downscale_is_rounded_mean_8bit() {
    // (a + b + c + d + 2) div 4, half rounds up
    let src: Vec<u8> = vec![1, 2, 3, 4];
    let dst = downscale_half_u8(&src, 2, 2);
    assert_eq!(dst, vec![3]); // (1+2+3+4+2)/4 == 3
    let src2: Vec<u8> = vec![0, 0, 0, 1];
    assert_eq!(downscale_half_u8(&src2, 2, 2), vec![0]);
    let src3: Vec<u8> = vec![0, 0, 1, 1];
    assert_eq!(downscale_half_u8(&src3, 2, 2), vec![1]); // 4/4: half rounds up
}

#[test]
fn downscale_is_rounded_mean_16bit_no_overflow() {
    let src: Vec<u16> = vec![65535, 65535, 65535, 65535];
    let dst = downscale_half_u16(&src, 2, 2);
    assert_eq!(dst, vec![65535]);
    let src2: Vec<u16> = vec![65535, 65535, 65533, 0];
    // (65535 + 65535 + 65533 + 0 + 2) / 4 == 196605 / 4 == 49151
    assert_eq!(downscale_half_u16(&src2, 2, 2), vec![49151]);
}

#[test]
fn downscale_walks_rows_in_pairs() {
    // 4x2 image: two 2x2 blocks side by side
    let src: Vec<u8> = vec![10, 20, 30, 40, 50, 60, 70, 80];
    let dst = downscale_half_u8(&src, 4, 2);
    // block (10,20,50,60) means 35; block (30,40,70,80) means 55
    assert_eq!(dst, vec![35, 55]);
}

#[test]
fn merge_with_itself_is_identity() {
    let a: Vec<u8> = vec![0, 1, 2, 127, 128, 254, 255];
    assert_eq!(avg_two_u8(&a, &a), a);
    let b: Vec<u16> = vec![0, 1, 70, 30000, 65535];
    assert_eq!(avg_two_u16(&b, &b), b);
}

#[test]
fn merge_rounds_half_up() {
    let a: Vec<u8> = vec![0];
    let b: Vec<u8> = vec![1];
    assert_eq!(avg_two_u8(&a, &b), vec![1]);
    let c: Vec<u16> = vec![0, 3];
    let d: Vec<u16> = vec![1, 4];
    assert_eq!(avg_two_u16(&c, &d), vec![1, 4]);
}
