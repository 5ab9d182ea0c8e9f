use reduced_color::distance::distance_between;
use reduced_color::packing::{pack_channels, unpack_channels};
use reduced_color::ColorNode;

#[test]
fn argb_packs_alpha_highest() {
    assert_eq!(ColorNode::convert_argb_to_u32(0x01, 0x02, 0x03, 0x04), 0x0102_0304);
    assert_eq!(ColorNode::convert_argb_to_u32(0xff, 0, 0, 0), 0xff00_0000);
    assert_eq!(ColorNode::convert_argb_to_u32(0, 0xff, 0, 0), 0x00ff_0000);
    assert_eq!(ColorNode::convert_argb_to_u32(0, 0, 0xff, 0), 0x0000_ff00);
    assert_eq!(ColorNode::convert_argb_to_u32(0, 0, 0, 0xff), 0x0000_00ff);
    assert_eq!(pack_channels(0x12, 0x34, 0x56, 0x78), 0x1234_5678);
}

#[test]
fn argb_unpacks_alpha_first() {
    assert_eq!(ColorNode::convert_u32_to_argb(0x0102_0304), [1, 2, 3, 4]);
    assert_eq!(ColorNode::convert_u32_to_argb(0xffff_ffff), [255, 255, 255, 255]);
    assert_eq!(ColorNode::convert_u32_to_argb(0), [0, 0, 0, 0]);
    assert_eq!(unpack_channels(0x1234_5678), [0x12, 0x34, 0x56, 0x78]);
}

#[test]
fn pack_then_unpack_gives_the_channels_back() {
    let values: [u8; 6] = [0, 1, 127, 128, 254, 255];
    for a in values {
        for r in values {
            for g in values {
                for b in values {
                    let packed = ColorNode::convert_argb_to_u32(a, r, g, b);
                    assert_eq!(ColorNode::convert_u32_to_argb(packed), [a, r, g, b]);
                }
            }
        }
    }
}

#[test]
fn unpack_then_pack_gives_the_value_back() {
    let mut v: u32 = 0;
    for _ in 0..100_000 {
        let c = ColorNode::convert_u32_to_argb(v);
        assert_eq!(ColorNode::convert_argb_to_u32(c[0], c[1], c[2], c[3]), v);
        v = v.wrapping_mul(1_664_525).wrapping_add(1_013_904_223);
    }
    for v in [0u32, 1, 0xff, 0x100, 0xffff, 0x1_0000, 0xff_ffff, 0x100_0000, u32::MAX] {
        let c = ColorNode::convert_u32_to_argb(v);
        assert_eq!(ColorNode::convert_argb_to_u32(c[0], c[1], c[2], c[3]), v);
    }
}

#[test]
fn from_argb_reads_blue_lowest() {
    let node = ColorNode::from_argb(0x0a14_1e28, 7);
    assert_eq!((node.a, node.r, node.g, node.b, node.uses), (10, 20, 30, 40, 7));
    assert_eq!(node.to_argb(), 0x0a14_1e28);
}

#[test]
fn from_abgr_reads_red_lowest() {
    let node = ColorNode::from_abgr(0x0a14_1e28, 7);
    assert_eq!((node.a, node.r, node.g, node.b, node.uses), (10, 40, 30, 20, 7));
    assert_eq!(node.to_abgr(), 0x0a14_1e28);
    assert_eq!(node.to_argb(), 0x0a28_1e14);
}

#[test]
fn from_color_keeps_every_field() {
    let node = ColorNode::from_color(1, 2, 3, 4, 5);
    assert_eq!(node, ColorNode { a: 1, r: 2, g: 3, b: 4, uses: 5 });
    assert_eq!(ColorNode::from_argb(node.to_argb(), node.uses), node);
    assert_eq!(ColorNode::from_abgr(node.to_abgr(), node.uses), node);
}

#[test]
fn distance_leaves_alpha_out() {
    let node = ColorNode::from_color(200, 10, 20, 30, 0);
    assert_eq!(node.distance2(10, 20, 30), 0);
    assert_eq!(node.distance2(13, 16, 30), 9 + 16);
    assert_eq!(node.distance2(0, 0, 0), 100 + 400 + 900);
    let black = ColorNode::from_color(0, 0, 0, 0, 0);
    assert_eq!(black.distance2(255, 255, 255), 195_075);
    assert_eq!(distance_between(255, 255, 255, 0, 0, 0), 195_075);
    assert_eq!(distance_between(1, 2, 3, 4, 6, 8), 9 + 16 + 25);
}
