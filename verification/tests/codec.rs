//! Tests of the quadtree builder, the wire serialisers and the parsers.
use monochrome_quadtree::dec::{LeafParserV1, LeafParserV2, ParseError};
use monochrome_quadtree::dec_video::VideoSlice;
use monochrome_quadtree::enc::{CompactError, Node, QuadTree};
use monochrome_quadtree::pos::next_pos;
use monochrome_quadtree::raster::Framebuffer;
use monochrome_quadtree::{FrameMeta, Leaf, LeafData};

const M: u8 = u8::MAX;

pub const BUF: [u8; 1024] = [
    0, 0, 0, 0, 0, 0, 0, 0, 0, 0, 0, 0, M, M, M, M,
    0, 0, 0, 0, 0, 0, 0, 0, 0, 0, 0, 0, M, M, M, M,
    0, 0, 0, 0, 0, 0, 0, 0, 0, 0, 0, 0, M, M, M, M,
    0, 0, 0, 0, 0, 0, 0, 0, 0, 0, 0, 0, M, M, M, M,
    0, 0, 0, 0, 0, 0, 0, 0, 0, 0, 0, 0, M, M, M, M,
    0, 0, 0, 0, 0, 0, 0, 0, 0, 0, 0, 0, M, M, M, M,
    0, 0, 0, 0, 0, 0, 0, 0, 0, 0, 0, 0, M, M, M, M,
    0, 0, 0, 0, 0, 0, 0, 0, 0, 0, 0, 0, M, M, M, M,
    0, 0, 0, 0, 0, 0, 0, 0, 0, 0, 0, 0, M, M, M, M,
    0, 0, 0, 0, 0, 0, 0, 0, 0, 0, 0, 0, M, M, M, M,
    0, 0, 0, 0, 0, 0, 0, 0, 0, 0, 0, 0, M, M, M, M,
    0, 0, 0, 0, 0, 0, 0, 0, 0, 0, 0, 0, M, M, M, M,
    0, 0, 0, 0, 0, 0, 0, 0, 0, 0, 0, 0, M, M, M, M,
    0, 0, 0, 0, 0, 0, 0, 0, 0, 0, 0, 0, M, M, M, M,
    0, 0, 0, 0, 0, 0, 0, 0, 0, 0, 0, 0, M, M, M, M,
    0, 0, 0, 0, 0, 0, 0, 0, 0, 0, 0, 0, M, M, M, M,
    0, 0, 0, 0, 0, 0, 0, 0, 0, 0, 0, 0, M, M, M, M,
    0, 0, 0, 0, 0, 0, 0, 0, 0, 0, 0, 0, M, M, M, M,
    0, 0, 0, 0, 0, 0, 0, 0, 0, 0, 0, 0, M, M, M, M,
    0, 0, 0, 0, 0, 0, 0, 0, 0, 0, 0, 0, M, M, M, M,
    0, 0, 0, 0, 0, 0, 0, 0, 0, 0, 0, 0, M, M, M, M,
    0, 0, 0, 0, 0, 0, 0, 0, 0, 0, 0, 0, M, M, M, M,
    0, 0, 0, 0, 0, 0, 0, 0, 0, 0, 0, 0, M, M, M, M,
    0, 0, 0, 0, 0, 0, 0, 0, 0, 0, 0, 0, M, M, M, M,
    0, 0, 0, 0, 0, 0, 0, 0, 0, 0, 0, 0, M, M, M, M,
    0, 0, 0, 0, 0, 0, 0, 0, 0, 0, 0, 0, M, M, M, M,
    0, 0, 0, 0, 0, 0, 0, 0, 0, 0, 0, 0, M, M, M, M,
    0, 0, 0, 0, 0, 0, 0, 0, 0, 0, 0, 0, M, M, M, M,
    0, 0, 0, 0, 0, 0, 0, 0, 0, 0, 0, 0, M, M, M, M,
    0, 0, 0, 0, 0, 0, 0, 0, 0, 0, 0, 0, M, M, M, M,
    0, 0, 0, 0, 0, 0, 0, 0, 0, 0, 0, 0, M, M, M, M,
    0, 0, 0, 0, 0, 0, 0, 0, 0, 0, 0, 0, M, M, M, M,
    0, 0, 0, 0, 0, 0, 0, 0, 0, 0, 0, 0, 0, 0, M, M,
    0, 0, 0, 0, 0, 0, 0, 0, 0, 0, 0, 0, 0, 0, M, M,
    0, 0, 0, 0, 0, 0, 0, 0, 0, 0, 0, 0, 0, 0, M, M,
    0, 0, 0, 0, 0, 0, 0, 0, 0, 0, 0, 0, 0, 0, M, M,
    0, 0, 0, 0, 0, 0, 0, 0, 0, 0, 0, 0, 0, 0, M, M,
    0, 0, 0, 0, 0, 0, 0, 0, 0, 0, 0, 0, 0, 0, M, M,
    0, 0, 0, 0, 0, 0, 0, 0, 0, 0, 0, 0, 0, 0, M, M,
    0, 0, 0, 0, 0, 0, 0, 0, 0, 0, 0, 0, 0, 0, M, M,
    0, 0, 0, 0, 0, 0, 0, 0, 0, 0, 0, 0, 0, 0, M, M,
    0, 0, 0, 0, 0, 0, 0, 0, 0, 0, 0, 0, 0, 0, M, M,
    0, 0, 0, 0, 0, 0, 0, 0, 0, 0, 0, 0, 0, 0, M, M,
    0, 0, 0, 0, 0, 0, 0, 0, 0, 0, 0, 0, 0, 0, M, M,
    0, 0, 0, 0, 0, 0, 0, 0, 0, 0, 0, 0, 0, 0, M, M,
    0, 0, 0, 0, 0, 0, 0, 0, 0, 0, 0, 0, 0, 0, M, M,
    0, 0, 0, 0, 0, 0, 0, 0, 0, 0, 0, 0, 0, 0, M, M,
    0, 0, 0, 0, 0, 0, 0, 0, 0, 0, 0, 0, 0, 0, M, M,
    0, 0, 0, 0, 0, 0, 0, 0, 0, 0, 0, 0, 0, 0, 0, M,
    0, 0, 0, 0, 0, 0, 0, 0, 0, 0, 0, 0, 0, 0, 0, M,
    0, 0, 0, 0, 0, 0, 0, 0, 0, 0, 0, 0, 0, 0, 0, M,
    0, 0, 0, 0, 0, 0, 0, 0, 0, 0, 0, 0, 0, 0, 0, M,
    0, 0, 0, 0, 0, 0, 0, 0, 0, 0, 0, 0, 0, 0, 0, M,
    0, 0, 0, 0, 0, 0, 0, 0, 0, 0, 0, 0, 0, 0, 0, M,
    0, 0, 0, 0, 0, 0, 0, 0, 0, 0, 0, 0, 0, 0, 0, M,
    0, 0, 0, 0, 0, 0, 0, 0, 0, 0, 0, 0, 0, 0, 0, M,
    0, 0, 0, 0, 0, 0, 0, 0, 0, 0, 0, 0, 0, 0, 0, 0x0f,
    0, 0, 0, 0, 0, 0, 0, 0, 0, 0, 0, 0, 0, 0, 0, 0x0f,
    0, 0, 0, 0, 0, 0, 0, 0, 0, 0, 0, 0, 0, 0, 0, 0x0f,
    0, 0, 0, 0, 0, 0, 0, 0, 0, 0, 0, 0, 0, 0, 0, 0x0f,
    0, 0, 0, 0, 0, 0, 0, 0, 0, 0, 0, 0, 0, 0, 0, 0b0000_0011,
    0, 0, 0, 0, 0, 0, 0, 0, 0, 0, 0, 0, 0, 0, 0, 0b0000_0011,
    0, 0, 0, 0, 0, 0, 0, 0, 0, 0, 0, 0, 0, 0, 0, 0b0000_0001,
    0, 0, 0, 0, 0, 0, 0, 0, 0, 0, 0, 0, 0, 0, 0, 0,
];

fn expected_leaves() -> [Leaf; 5] {
    [
        Leaf::new(
            LeafData::Feature(true),
            heapless::Vec::from_slice(&[1, 1]).unwrap(),
        ),
        Leaf::new(
            LeafData::Feature(true),
            heapless::Vec::from_slice(&[1, 3, 1]).unwrap(),
        ),
        Leaf::new(
            LeafData::Feature(true),
            heapless::Vec::from_slice(&[1, 3, 3, 1]).unwrap(),
        ),
        Leaf::new(
            LeafData::Feature(true),
            heapless::Vec::from_slice(&[1, 3, 3, 3, 1]).unwrap(),
        ),
        Leaf::new(
            LeafData::Bitmap([0b0011_0011, 0b0001_0000]),
            heapless::Vec::from_slice(&[1, 3, 3, 3, 3]).unwrap(),
        ),
    ]
}

pub const EXPECTED_BYTES_LINEAR: &[u8] = &[
    0b101,
    0b1_010_01_01,
    0b1_011_01_11, 0b01_00_00_00,
    0b1_100_01_11, 0b11_01_00_00,
    0b1_101_01_11, 0b11_11_01_00,
    0b1_110_01_11, 0b11_11_11_00,
    0b0011_0011,   0b0001_0000
];

pub const EXPECTED_BYTES_COMPACT: &[u8] = &[
    0b01_10_01_10,
    0b11_10_01_10,
    0b11_10_01_10,
    0b11_10_01_10,
    0b11_10_01_10,
    0b11_10_01_10,
    0b11_10_10_00,
    0b00 << 6,
];

#[test]
fn framemeta_pack_then_parse() {
    let foo = [true, false];
    for a in foo {
        for b in foo {
            for c in foo {
                let left = FrameMeta::new(a, b, c);
                let int: u8 = left.to_byte();
                let right = FrameMeta::try_from_byte(int).unwrap();
                assert_eq!(left, right)
            }
        }
    }
}

#[test]
fn full() {
    let buf = [u8::MAX; 128 * 64 / 8];
    let mut out = Vec::with_capacity(2);

    let tree = QuadTree::from_128x64(&buf, true);

    assert_eq!(
        tree.leaves(),
        [Leaf::new(
            LeafData::Feature(true),
            heapless::Vec::from_slice(&[]).unwrap()
        )]
    );
    assert_eq!(
        tree.nodes(),
        [&Node::Leaf(LeafData::Feature(true))]
    );

    tree.store_packed(&mut out);
    assert_eq!(out, [0b101, 0b1_000_0000]);

    let compact = tree.collect_compact().unwrap();
    assert_eq!(compact, [0b11_00_00_00]);
}

#[test]
fn empty() {
    let buf = [0; 128 * 64 / 8];
    let mut out = Vec::new();

    let tree = QuadTree::from_128x64(&buf, true);

    assert_eq!(
        tree.leaves(),
        [Leaf::new(
            LeafData::Feature(false),
            heapless::Vec::from_slice(&[]).unwrap()
        )]
    );
    assert_eq!(
        tree.nodes(),
        [&Node::Leaf(LeafData::Feature(false))]
    );

    tree.store_packed(&mut out);
    assert_eq!(out, [0b100, 0b1_000_0000]);

    let compact = tree.collect_compact().unwrap();
    assert_eq!(compact, [0b10_00_00_00]);
}

#[test]
fn stairs_v1() {
    let mut out = Vec::with_capacity(EXPECTED_BYTES_LINEAR.len());

    let tree = QuadTree::from_128x64(&BUF, true);

    let active: Vec<_> = tree
        .leaves()
        .into_iter()
        .filter(|l| l.feat_or_data(true))
        .collect();
    assert_eq!(active, expected_leaves());

    tree.store_packed(&mut out);
    assert_eq!(out, EXPECTED_BYTES_LINEAR);
}

#[test]
fn stairs_v2() {
    let tree = QuadTree::from_128x64(&BUF, false);
    let compact = tree.collect_compact().unwrap();
    assert_eq!(compact, EXPECTED_BYTES_COMPACT);
}

#[test]
fn traverse() {
    let tree = QuadTree {
        head: Node::Branch(
            Box::new(Node::Branch(
                Box::new(Node::Leaf(LeafData::Feature(true))),
                Box::new(Node::Leaf(LeafData::Feature(false))),
                Box::new(Node::Empty),
                Box::new(Node::Empty),
            )),
            Box::new(Node::Empty),
            Box::new(Node::Leaf(LeafData::Feature(true))),
            Box::new(Node::Leaf(LeafData::Feature(false))),
        ),
    };
    let nodes: Vec<_> = tree.nodes();
    let top = tree.head.children().unwrap();
    let inner = top.0.children().unwrap();

    assert_eq!(
        nodes,
        [
            &tree.head,
            top.0,
            inner.0,
            inner.1,
            inner.2,
            inner.3,
            top.1,
            top.2,
            top.3,
        ]
    )
}

#[test]
fn diff_same() {
    let tree = QuadTree {
        head: Node::Branch(
            Box::new(Node::Branch(
                Box::new(Node::Leaf(LeafData::Feature(true))),
                Box::new(Node::Leaf(LeafData::Feature(false))),
                Box::new(Node::Empty),
                Box::new(Node::Empty),
            )),
            Box::new(Node::Empty),
            Box::new(Node::Leaf(LeafData::Feature(true))),
            Box::new(Node::Leaf(LeafData::Feature(false))),
        ),
    };
    let diff = tree.diff(&tree);

    assert_eq!(diff.head, Node::Empty);
}

#[test]
fn diff() {
    let old = QuadTree {
        head: Node::Branch(
            Box::new(Node::Empty),
            Box::new(Node::Leaf(LeafData::Feature(false))),
            Box::new(Node::Leaf(LeafData::Feature(true))),
            Box::new(Node::Leaf(LeafData::Feature(true))),
        ),
    };
    let new = QuadTree {
        head: Node::Branch(
            Box::new(Node::Branch(
                Box::new(Node::Leaf(LeafData::Feature(true))),
                Box::new(Node::Leaf(LeafData::Feature(false))),
                Box::new(Node::Empty),
                Box::new(Node::Empty),
            )),
            Box::new(Node::Empty),
            Box::new(Node::Leaf(LeafData::Feature(true))),
            Box::new(Node::Leaf(LeafData::Feature(false))),
        ),
    };

    let diff = new.diff(&old);

    let expected = Node::Branch(
        Box::new(Node::Branch(
            Box::new(Node::Leaf(LeafData::Feature(true))),
            Box::new(Node::Leaf(LeafData::Feature(false))),
            Box::new(Node::Empty),
            Box::new(Node::Empty),
        )),
        Box::new(Node::Empty),
        Box::new(Node::Empty),
        Box::new(Node::Leaf(LeafData::Feature(false))),
    );

    assert_eq!(diff.head, expected);
}

#[test]
fn parse() {
    let buf = [
        1, 0,
        0, // a one-byte payload; only the framing is under test
        3, 0,
        0, 0, 0,
        4, 0,
        0, 0, 0, 0
    ];

    let expect_v1 = [
        LeafParserV1::new(&buf[2..3]).unwrap(),
        LeafParserV1::new(&buf[5..8]).unwrap(),
        LeafParserV1::new(&buf[10..14]).unwrap(),
    ];

    let mut vs = VideoSlice::new(&buf);
    for l in expect_v1.iter() {
        let payload = vs.next().unwrap();
        let r = LeafParserV1::new(payload).unwrap();
        assert_eq!(*l, r)
    }

    let expect_v2 = [
        LeafParserV2::from_buf(&buf[2..3]).unwrap(),
        LeafParserV2::from_buf(&buf[5..8]).unwrap(),
        LeafParserV2::from_buf(&buf[10..14]).unwrap(),
    ];
    let mut vs2 = VideoSlice::new(&buf);
    for l in expect_v2.iter() {
        let payload = vs2.next().unwrap();
        let r = LeafParserV2::from_buf(payload).unwrap();
        assert_eq!(*l, r)
    }
}

#[test]
fn enc_then_draw_v1() {
    let mut out = Vec::with_capacity(12);

    let tree = QuadTree::from_128x64(&BUF, true);
    tree.store_packed(&mut out);

    // really just a sanity check
    assert_eq!(EXPECTED_BYTES_LINEAR, out.as_slice());

    let mut display = Framebuffer { bytes: [0; 1024] };

    let dec = LeafParserV1::new(&out).unwrap();
    dec.draw_onto(&mut display);

    assert_eq!(BUF, display.bytes)
}

#[test]
fn enc_then_draw_v2() {
    let tree = QuadTree::from_128x64(&BUF, false);
    let compact = tree.collect_compact().unwrap();

    assert_eq!(EXPECTED_BYTES_COMPACT, compact.as_slice());

    let mut display = Framebuffer { bytes: [0; 1024] };
    let dec = LeafParserV2::from_buf(&compact).unwrap();
    dec.draw_onto(&mut display);

    assert_eq!(BUF, display.bytes)
}

#[test]
fn invalid_headers() {
    assert_eq!(LeafParserV1::new(&[]).unwrap_err(), ParseError::InvalidHeader);
    assert_eq!(LeafParserV1::new(&[8]).unwrap_err(), ParseError::InvalidHeader);
    assert_eq!(LeafParserV1::new(&[255, 1, 2]).unwrap_err(), ParseError::InvalidHeader);
    assert!(LeafParserV1::new(&[7]).is_ok());
}

#[test]
fn compact_rejects_tiles() {
    let tree = QuadTree::from_128x64(&BUF, true);
    assert_eq!(tree.collect_compact().unwrap_err(), CompactError::BitmapLeaf);
}

#[test]
fn position_counter_carries() {
    let mut pos = heapless::Vec::<u8, 7>::from_slice(&[0, 3, 3]).unwrap();
    next_pos(&mut pos).unwrap();
    assert_eq!(&pos[..], &[1]);

    let mut deepest = heapless::Vec::<u8, 7>::from_slice(&[3, 3, 3]).unwrap();
    next_pos(&mut deepest).unwrap();
    assert_eq!(&deepest[..], &[] as &[u8]);

    let mut plain = heapless::Vec::<u8, 7>::from_slice(&[2, 0]).unwrap();
    next_pos(&mut plain).unwrap();
    assert_eq!(&plain[..], &[2, 1]);
}

#[test]
fn leaf_containment() {
    let outer = Leaf::new(
        LeafData::Feature(true),
        heapless::Vec::from_slice(&[1, 3]).unwrap(),
    );
    let inner = Leaf::new(
        LeafData::Feature(false),
        heapless::Vec::from_slice(&[1, 3, 2]).unwrap(),
    );
    let other = Leaf::new(
        LeafData::Feature(true),
        heapless::Vec::from_slice(&[1, 2, 2]).unwrap(),
    );
    assert!(outer.contains(&inner));
    assert!(!inner.contains(&outer));
    assert!(!outer.contains(&other));
    assert!(outer.contains(&outer));
    assert_eq!(inner.depth(), 3);
}
