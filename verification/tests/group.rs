use mtpng::group::{encode_group, encode_groups, RowGroup};
use mtpng::plan::Plan;
use mtpng::{ColorType, Filter, Header, Mode, Options};

fn plan_for(width: u32, height: u32, color: ColorType, depth: u8, options: &Options) -> Plan {
    let mut header = Header::new();
    header.set_size(width, height).unwrap();
    header.set_color(color, depth).unwrap();
    Plan::new(&header, &options.settings()).unwrap()
}

fn inflate(blocks: &[u8]) -> Vec<u8> {
    let mut stream = blocks.to_vec();
    stream.extend_from_slice(&[0x01, 0x00, 0x00, 0xff, 0xff]);
    miniz_oxide::inflate::decompress_to_vec(&stream).unwrap()
}

#[test]
fn group_blocks_inflate_to_filtered_rows() {
    let mut options = Options::new();
    options.set_filter_mode(Mode::Fixed(Filter::Sub)).unwrap();
    let plan = plan_for(2, 2, ColorType::Truecolor, 8, &options);
    let job = RowGroup {
        index: 0,
        count: 2,
        above: vec![0; 6],
        rows: vec![10, 20, 30, 11, 22, 33, 1, 2, 3, 4, 5, 6],
    };
    let done = encode_group(&plan, &job);
    assert_eq!(done.index, 0);
    assert_eq!(done.filtered_len, 14);
    let filtered = inflate(&done.data.unwrap());
    assert_eq!(filtered, vec![1, 10, 20, 30, 1, 2, 3, 1, 1, 2, 3, 3, 3, 3]);
}

#[test]
fn groups_come_back_in_order() {
    let options = Options::new();
    let plan = plan_for(1, 3, ColorType::Greyscale, 8, &options);
    let jobs: Vec<RowGroup> = (0..3u32)
        .map(|i| RowGroup { index: i, count: 1, above: vec![0], rows: vec![i as u8 * 7] })
        .collect();
    let done = encode_groups(&plan, &jobs);
    assert_eq!(done.len(), 3);
    for (i, group) in done.iter().enumerate() {
        assert_eq!(group.index, i as u32);
        assert_eq!(group.filtered_len, 2);
    }
}
