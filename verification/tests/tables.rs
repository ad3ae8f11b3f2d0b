use pdfplumber::error::Error;
use pdfplumber::float::Float;
use pdfplumber::table::cells::edge_connects;
use pdfplumber::table::cells::intersections_to_cells;
use pdfplumber::table::components::cells_to_tables;
use pdfplumber::table::components::merge_bboxes;
use pdfplumber::table::components::remove_bbox;
use pdfplumber::table::edges::curve_to_edges;
use pdfplumber::table::edges::filter_edges;
use pdfplumber::table::edges::join_edge_group;
use pdfplumber::table::edges::line_to_edge;
use pdfplumber::table::edges::merge_edges;
use pdfplumber::table::finder::get_edges;
use pdfplumber::table::grid::char_in_bbox;
use pdfplumber::table::intersections::edges_to_intersections;
use pdfplumber::table::word_edges::words_to_edges_h;
use pdfplumber::table::word_edges::words_to_edges_v;
use pdfplumber::table::ExplicitLine;
use pdfplumber::table::Table;
use pdfplumber::table::TableFinder;
use pdfplumber::table::TableSettings;
use pdfplumber::table::TableStrategy;
use pdfplumber::transform::Transform;
use pdfplumber::types::BBox;
use pdfplumber::types::Char;
use pdfplumber::types::Curve;
use pdfplumber::types::Edge;
use pdfplumber::types::Line;
use pdfplumber::types::Orientation;
use pdfplumber::types::Page;
use pdfplumber::types::Point;
use pdfplumber::types::RectObject;
use pdfplumber::types::TextOptions;
use pdfplumber::types::Word;

fn f(v: f64) -> Float {
    Float { bits: v.to_bits() }
}

fn n(v: Float) -> f64 {
    f64::from_bits(v.bits)
}

fn rect(x0: f64, top: f64, x1: f64, bottom: f64) -> BBox {
    BBox::new(f(x0), f(top), f(x1), f(bottom))
}

fn sides(b: BBox) -> (f64, f64, f64, f64) {
    (n(b.x0), n(b.top), n(b.x1), n(b.bottom))
}

fn across(x0: f64, x1: f64, y: f64) -> Edge {
    Edge {
        x0: f(x0),
        top: f(y),
        x1: f(x1),
        bottom: f(y),
        width: f(x1 - x0),
        height: f(0.0),
        orientation: Orientation::Horizontal,
        object_type: "line".to_string(),
    }
}

fn down(x: f64, top: f64, bottom: f64) -> Edge {
    Edge {
        x0: f(x),
        top: f(top),
        x1: f(x),
        bottom: f(bottom),
        width: f(0.0),
        height: f(bottom - top),
        orientation: Orientation::Vertical,
        object_type: "line".to_string(),
    }
}

fn drawn(x0: f64, top: f64, x1: f64, bottom: f64) -> Line {
    Line {
        object_type: "line".to_string(),
        page_number: 1,
        x0: f(x0),
        top: f(top),
        x1: f(x1),
        bottom: f(bottom),
        y0: f(0.0),
        y1: f(0.0),
        doctop: f(top),
        width: f(x1 - x0),
        height: f(bottom - top),
        pts: Vec::new(),
        stroke: true,
        fill: false,
        linewidth: f(0.0),
    }
}

fn letter(text: &str, x0: f64, top: f64, x1: f64, bottom: f64) -> Char {
    Char {
        object_type: "char".to_string(),
        page_number: 1,
        text: text.to_string(),
        x0: f(x0),
        top: f(top),
        x1: f(x1),
        bottom: f(bottom),
        y0: f(0.0),
        y1: f(0.0),
        doctop: f(top),
        width: f(x1 - x0),
        height: f(bottom - top),
        size: f(bottom - top),
        adv: f(x1 - x0),
        upright: true,
        fontname: "unknown".to_string(),
        matrix: Transform::identity(),
        mcid: None,
        tag: None,
        ncs: None,
        stroking_color: None,
        non_stroking_color: None,
    }
}

fn word(x0: f64, top: f64, x1: f64, bottom: f64) -> Word {
    Word { text: "w".to_string(), x0: f(x0), top: f(top), x1: f(x1), bottom: f(bottom) }
}

fn empty_page() -> Page {
    let whole: BBox = rect(0.0, 0.0, 200.0, 100.0);
    Page {
        page_number: 1,
        rotation: 0,
        width: f(200.0),
        height: f(100.0),
        bbox: whole,
        mediabox: whole,
        cropbox: whole,
        trimbox: None,
        bleedbox: None,
        artbox: None,
        doctop_offset: f(0.0),
        is_original: true,
        chars: Vec::new(),
        lines: Vec::new(),
        rects: Vec::new(),
        curves: Vec::new(),
        images: Vec::new(),
        annots: Vec::new(),
        hyperlinks: Vec::new(),
    }
}

/// Two rows of two cells each: x at 10, 50, 90; y at 10, 30, 50.
fn ruled_page() -> Page {
    let mut page: Page = empty_page();
    for y in [10.0, 30.0, 50.0] {
        page.lines.push(drawn(10.0, y, 90.0, y));
    }
    for x in [10.0, 50.0, 90.0] {
        page.lines.push(drawn(x, 10.0, x, 50.0));
    }
    page.chars.push(letter("a", 20.0, 15.0, 26.0, 25.0));
    page.chars.push(letter("b", 60.0, 15.0, 66.0, 25.0));
    page.chars.push(letter("d", 60.0, 35.0, 66.0, 45.0));
    page.chars.push(letter("x", 120.0, 35.0, 126.0, 45.0));
    page
}

fn plain() -> TextOptions {
    TextOptions { layout: false, layout_width: None, layout_height: None, layout_bbox: None }
}

fn no_words(_chars: &Vec<Char>, _options: &TextOptions, _split: bool) -> Vec<Word> {
    panic!("words are not asked for")
}

fn all_text(chars: &Vec<Char>, _options: &TextOptions) -> String {
    let mut out: String = String::new();
    for c in chars {
        out.push_str(&c.text);
    }
    out
}

#[test]
fn strategies_have_names() {
    assert_eq!("lines".parse::<TableStrategy>().unwrap(), TableStrategy::Lines);
    assert_eq!("lines_strict".parse::<TableStrategy>().unwrap(), TableStrategy::LinesStrict);
    assert_eq!("text".parse::<TableStrategy>().unwrap(), TableStrategy::Text);
    assert_eq!("explicit".parse::<TableStrategy>().unwrap(), TableStrategy::Explicit);
    match "Lines".parse::<TableStrategy>() {
        Err(Error::Message(text)) => assert_eq!(text, "unknown table strategy: Lines"),
        other => panic!("{:?}", other),
    }
    assert_eq!(TableStrategy::default(), TableStrategy::Lines);
}

#[test]
fn special_tolerances_win() {
    let mut settings: TableSettings = TableSettings::default();
    assert_eq!(n(settings.snap_x_tolerance()), 3.0);
    assert_eq!(n(settings.snap_y_tolerance()), 3.0);
    assert_eq!(n(settings.join_x_tolerance()), 3.0);
    assert_eq!(n(settings.join_y_tolerance()), 3.0);
    assert_eq!(n(settings.intersection_x_tolerance()), 3.0);
    assert_eq!(n(settings.intersection_y_tolerance()), 3.0);
    assert_eq!(n(settings.edge_min_length), 3.0);
    assert_eq!(n(settings.edge_min_length_prefilter), 1.0);
    assert_eq!(settings.min_words_vertical, 3);
    assert_eq!(settings.min_words_horizontal, 1);
    settings.snap_x_tolerance = Some(f(0.0));
    settings.snap_y_tolerance = Some(f(1.0));
    settings.join_x_tolerance = Some(f(2.0));
    settings.join_y_tolerance = Some(f(4.0));
    settings.intersection_x_tolerance = Some(f(5.0));
    settings.intersection_y_tolerance = Some(f(6.0));
    assert_eq!(n(settings.snap_x_tolerance()), 0.0);
    assert_eq!(n(settings.snap_y_tolerance()), 1.0);
    assert_eq!(n(settings.join_x_tolerance()), 2.0);
    assert_eq!(n(settings.join_y_tolerance()), 4.0);
    assert_eq!(n(settings.intersection_x_tolerance()), 5.0);
    assert_eq!(n(settings.intersection_y_tolerance()), 6.0);
}

#[test]
fn a_ruled_page_has_one_table() {
    let page: Page = ruled_page();
    let finder: TableFinder = TableFinder::new(&page, TableSettings::default(), no_words).unwrap();
    assert_eq!(finder.edges.len(), 6);
    assert_eq!(finder.intersections.len(), 9);
    let mut cells: Vec<(f64, f64, f64, f64)> = finder.cells.iter().map(|b| sides(*b)).collect();
    cells.sort_by(|a, b| a.partial_cmp(b).unwrap());
    assert_eq!(
        cells,
        vec![
            (10.0, 10.0, 50.0, 30.0),
            (10.0, 10.0, 50.0, 50.0),
            (10.0, 30.0, 50.0, 50.0),
            (50.0, 10.0, 90.0, 30.0),
            (50.0, 10.0, 90.0, 50.0),
            (50.0, 30.0, 90.0, 50.0),
        ]
    );
    assert_eq!(finder.tables.len(), 1);
    let table: &Table = &finder.tables[0];
    assert_eq!(sides(table.bbox), (10.0, 10.0, 90.0, 50.0));
    assert_eq!(table.shape(), (2, 2));
    assert_eq!(table.row_count(), 2);
    assert_eq!(table.column_count(), 2);
    let rows = table.rows();
    assert_eq!(sides(rows[1].bbox), (10.0, 30.0, 90.0, 50.0));
    assert_eq!(sides(rows[1].cells[0].unwrap()), (10.0, 30.0, 50.0, 50.0));
    let columns = table.columns();
    assert_eq!(sides(columns[1].bbox), (50.0, 10.0, 90.0, 50.0));
    let texts = table.extract(&page, &plain(), all_text);
    assert_eq!(
        texts,
        vec![
            vec![Some("a".to_string()), Some("b".to_string())],
            vec![Some("".to_string()), Some("d".to_string())],
        ]
    );
    assert_eq!(table.extract_csv(&page, &plain(), all_text).unwrap(), "a,b\n,d\n");
}

#[test]
fn crossings_ascend_and_know_their_edges() {
    let page: Page = ruled_page();
    let finder: TableFinder = TableFinder::new(&page, TableSettings::default(), no_words).unwrap();
    let mut last: (f64, f64) = (f64::NEG_INFINITY, f64::NEG_INFINITY);
    for crossing in &finder.intersections {
        let here: (f64, f64) = (n(crossing.point.x), n(crossing.point.y));
        assert!(here.0 > last.0 || (here.0 == last.0 && here.1 > last.1));
        last = here;
        assert_eq!(crossing.edges.vertical.len(), 1);
        assert_eq!(crossing.edges.horizontal.len(), 1);
    }
    let (first, below, right, far) = (0, 1, 3, 4);
    assert!(edge_connects(first, below, &finder.intersections));
    assert!(edge_connects(first, right, &finder.intersections));
    assert!(!edge_connects(first, far, &finder.intersections));
}

#[test]
fn edges_cross_within_the_tolerance() {
    let edges: Vec<Edge> = vec![down(10.0, 0.0, 20.0), across(13.0, 40.0, 22.0)];
    assert_eq!(edges_to_intersections(&edges, f(3.0), f(3.0)).len(), 1);
    assert_eq!(edges_to_intersections(&edges, f(2.0), f(3.0)).len(), 0);
    assert_eq!(edges_to_intersections(&edges, f(3.0), f(1.0)).len(), 0);
    let crossings = edges_to_intersections(&edges, f(3.0), f(3.0));
    assert_eq!((n(crossings[0].point.x), n(crossings[0].point.y)), (10.0, 22.0));
    assert_eq!(intersections_to_cells(&crossings).len(), 0);
}

#[test]
fn a_single_cell_is_no_table() {
    let edges: Vec<Edge> = vec![
        across(0.0, 10.0, 0.0),
        across(0.0, 10.0, 10.0),
        down(0.0, 0.0, 10.0),
        down(10.0, 0.0, 10.0),
    ];
    let cells: Vec<BBox> = intersections_to_cells(&edges_to_intersections(&edges, f(1.0), f(1.0)));
    assert_eq!(cells.len(), 1);
    assert_eq!(sides(cells[0]), (0.0, 0.0, 10.0, 10.0));
    assert_eq!(cells_to_tables(&cells).len(), 0);
}

#[test]
fn cells_with_a_common_corner_are_one_table() {
    let cells: Vec<BBox> = vec![
        rect(100.0, 50.0, 110.0, 60.0),
        rect(0.0, 0.0, 10.0, 10.0),
        rect(110.0, 50.0, 120.0, 60.0),
        rect(20.0, 20.0, 30.0, 30.0),
        rect(10.0, 10.0, 20.0, 20.0),
        rect(500.0, 500.0, 510.0, 510.0),
    ];
    let tables: Vec<Vec<BBox>> = cells_to_tables(&cells);
    assert_eq!(tables.len(), 2);
    assert_eq!(
        tables[0].iter().map(|b| sides(*b)).collect::<Vec<_>>(),
        vec![(0.0, 0.0, 10.0, 10.0), (10.0, 10.0, 20.0, 20.0), (20.0, 20.0, 30.0, 30.0)]
    );
    assert_eq!(
        tables[1].iter().map(|b| sides(*b)).collect::<Vec<_>>(),
        vec![(100.0, 50.0, 110.0, 60.0), (110.0, 50.0, 120.0, 60.0)]
    );
}

#[test]
fn no_cells_make_no_tables() {
    assert_eq!(cells_to_tables(&Vec::new()).len(), 0);
    assert_eq!(sides(merge_bboxes(&Vec::new())), (0.0, 0.0, 0.0, 0.0));
    assert_eq!(
        sides(merge_bboxes(&vec![rect(5.0, 5.0, 1.0, 1.0), rect(2.0, 0.0, 9.0, 3.0)])),
        (1.0, 0.0, 9.0, 5.0)
    );
}

#[test]
fn bounds_do_not_depend_on_the_order() {
    let cells: Vec<BBox> =
        vec![rect(5.0, 5.0, 1.0, 1.0), rect(2.0, f64::NAN, 9.0, 3.0), rect(-4.0, 2.0, 0.0, 7.5)];
    let turned: Vec<BBox> = vec![cells[2], cells[0], cells[1], cells[0]];
    assert_eq!(sides(merge_bboxes(&cells)), (-4.0, 1.0, 9.0, 7.5));
    assert_eq!(sides(merge_bboxes(&turned)), (-4.0, 1.0, 9.0, 7.5));
}

#[test]
fn only_the_first_equal_rectangle_is_removed() {
    let mut items: Vec<BBox> = vec![
        rect(0.0, 0.0, 1.0, 1.0),
        rect(2.0, 2.0, 3.0, 3.0),
        rect(-0.0, 0.0, 1.0, 1.0),
    ];
    remove_bbox(&mut items, rect(0.0, 0.0, 1.0, 1.0));
    assert_eq!(items.len(), 2);
    assert_eq!(sides(items[0]), (2.0, 2.0, 3.0, 3.0));
    remove_bbox(&mut items, rect(0.0, 0.0, 1.0, 1.0));
    assert_eq!(items.len(), 1);
    remove_bbox(&mut items, rect(0.0, 0.0, 1.0, 1.0));
    assert_eq!(items.len(), 1);
    remove_bbox(&mut items, rect(f64::NAN, 2.0, 3.0, 3.0));
    assert_eq!(items.len(), 1);
}

#[test]
fn missing_cells_leave_gaps() {
    let table: Table = Table {
        cells: vec![
            rect(0.0, 0.0, 10.0, 10.0),
            rect(10.0, 0.0, 20.0, 10.0),
            rect(0.00005, 10.0, 10.0, 20.0),
        ],
        bbox: rect(0.0, 0.0, 20.0, 20.0),
    };
    assert_eq!(table.shape(), (2, 3));
    let rows = table.rows();
    assert!(rows[1].cells[0].is_some());
    assert!(rows[1].cells[1].is_none());
    let texts = table.extract(&empty_page(), &plain(), all_text);
    assert_eq!(texts[1], vec![Some("".to_string()), None]);
    assert_eq!(table.extract_csv(&empty_page(), &plain(), all_text).unwrap(), ",\n,\n");
}

#[test]
fn columns_are_the_transpose_of_rows() {
    let table: Table = Table {
        cells: vec![
            rect(20.0, 10.0, 30.0, 20.0),
            rect(-0.0, 0.0, 10.0, 10.0),
            rect(0.0, 20.0, 10.0, 30.0),
            rect(10.0, -0.0, 20.0, 10.0),
            rect(10.0, 20.0, 20.0, 30.0),
        ],
        bbox: rect(0.0, 0.0, 30.0, 30.0),
    };
    let rows = table.rows();
    let columns = table.columns();
    assert_eq!(table.shape(), (3, 3));
    assert_eq!(table.column_count(), 3);
    for i in 0..3 {
        assert_eq!(rows[i].cells.len(), 3);
        assert_eq!(columns[i].cells.len(), 3);
        for j in 0..3 {
            assert_eq!(rows[i].cells[j].map(sides), columns[j].cells[i].map(sides));
        }
    }
    assert_eq!(
        rows.iter().map(|r| r.cells.iter().map(|c| c.is_some()).collect()).collect::<Vec<Vec<bool>>>(),
        vec![vec![true, true, false], vec![false, false, true], vec![true, true, false]]
    );
    let none: Table = Table { cells: Vec::new(), bbox: rect(0.0, 0.0, 0.0, 0.0) };
    assert_eq!(none.extract_csv(&empty_page(), &plain(), all_text).unwrap(), "");
}

#[test]
fn layout_is_given_the_cell() {
    let page: Page = ruled_page();
    let finder: TableFinder = TableFinder::new(&page, TableSettings::default(), no_words).unwrap();
    let options: TextOptions =
        TextOptions { layout: true, layout_width: None, layout_height: None, layout_bbox: None };
    let texts = finder.tables[0].extract(&page, &options, |_chars, o| {
        format!("{} {} {:?}", n(o.layout_width.unwrap()), n(o.layout_height.unwrap()), o.layout_bbox.map(sides))
    });
    assert_eq!(texts[0][1], Some("40 20 Some((50.0, 10.0, 90.0, 30.0))".to_string()));
    assert_eq!(texts[1][0], Some("".to_string()));
}

#[test]
fn characters_belong_where_their_middle_lies() {
    let cell: BBox = rect(10.0, 10.0, 20.0, 20.0);
    assert!(char_in_bbox(&letter("a", 9.0, 9.0, 11.0, 11.0), cell));
    assert!(!char_in_bbox(&letter("a", 19.0, 9.0, 21.0, 11.0), cell));
    assert!(!char_in_bbox(&letter("a", 9.0, 19.0, 11.0, 21.0), cell));
    assert!(char_in_bbox(&letter("a", 9.0, 9.0, 11.0, 11.0), rect(20.0, 20.0, 10.0, 10.0)));
}

#[test]
fn explicit_lines_must_be_two() {
    let page: Page = empty_page();
    let mut settings: TableSettings = TableSettings::default();
    settings.vertical_strategy = TableStrategy::Explicit;
    settings.explicit_vertical_lines = vec![ExplicitLine::Position(f(5.0))];
    match TableFinder::new(&page, settings, no_words) {
        Err(Error::Message(text)) => assert_eq!(
            text,
            "explicit vertical strategy requires at least two explicit vertical lines"
        ),
        other => panic!("{:?}", other),
    }
    let mut settings: TableSettings = TableSettings::default();
    settings.horizontal_strategy = TableStrategy::Explicit;
    match get_edges(&page, &settings, no_words) {
        Err(Error::Message(text)) => assert_eq!(
            text,
            "explicit horizontal strategy requires at least two explicit horizontal lines"
        ),
        other => panic!("{:?}", other),
    }
}

#[test]
fn explicit_lines_cross_the_page() {
    let page: Page = empty_page();
    let mut settings: TableSettings = TableSettings::default();
    settings.vertical_strategy = TableStrategy::Explicit;
    settings.horizontal_strategy = TableStrategy::Explicit;
    settings.explicit_vertical_lines = vec![
        ExplicitLine::Position(f(10.0)),
        ExplicitLine::Position(f(50.0)),
        ExplicitLine::Edge(across(0.0, 100.0, 70.0)),
    ];
    settings.explicit_horizontal_lines = vec![
        ExplicitLine::Position(f(20.0)),
        ExplicitLine::Edge(across(0.0, 100.0, 40.0)),
        ExplicitLine::Position(f(60.0)),
    ];
    let edges: Vec<Edge> = get_edges(&page, &settings, no_words).unwrap();
    assert_eq!(edges.len(), 5);
    assert_eq!(edges.iter().filter(|e| e.orientation == Orientation::Vertical).count(), 2);
    assert_eq!(n(edges[0].x0), 0.0);
    assert_eq!(n(edges[0].x1), 200.0);
    assert_eq!(edges[0].object_type, "explicit");
    let finder: TableFinder = TableFinder::new(&page, settings, no_words).unwrap();
    assert_eq!(finder.tables.len(), 1);
    assert_eq!(finder.tables[0].shape(), (2, 1));
}

#[test]
fn strict_lines_leave_rectangles_out() {
    let mut page: Page = ruled_page();
    page.rects.push(RectObject {
        object_type: "rect".to_string(),
        page_number: 1,
        x0: f(120.0),
        top: f(10.0),
        x1: f(160.0),
        bottom: f(30.0),
        y0: f(0.0),
        y1: f(0.0),
        doctop: f(0.0),
        width: f(40.0),
        height: f(20.0),
        pts: Vec::new(),
        path: Vec::new(),
        stroke: true,
        fill: false,
        linewidth: f(0.0),
    });
    assert_eq!(page.edges().len(), 10);
    let all: Vec<Edge> = get_edges(&page, &TableSettings::default(), no_words).unwrap();
    assert_eq!(all.len(), 10);
    let mut settings: TableSettings = TableSettings::default();
    settings.vertical_strategy = TableStrategy::LinesStrict;
    settings.horizontal_strategy = TableStrategy::LinesStrict;
    assert_eq!(get_edges(&page, &settings, no_words).unwrap().len(), 6);
}

#[test]
fn short_edges_are_left_out() {
    let edges: Vec<Edge> = vec![across(0.0, 2.0, 5.0), across(0.0, 3.0, 50.0), down(9.0, 0.0, 1.0)];
    let long: Vec<Edge> = filter_edges(&edges, None, None, f(3.0));
    assert_eq!(long.len(), 1);
    assert_eq!(n(long[0].top), 50.0);
    let vertical: Vec<Edge> = filter_edges(&edges, Some(Orientation::Vertical), None, f(0.0));
    assert_eq!(vertical.len(), 1);
    assert_eq!(filter_edges(&edges, None, Some("rect"), f(0.0)).len(), 0);
    assert_eq!(filter_edges(&edges, None, Some("line"), f(0.0)).len(), 3);
    assert_eq!(filter_edges(&edges, None, None, f(f64::NAN)).len(), 0);
}

#[test]
fn edges_that_reach_each_other_are_joined() {
    let group: Vec<Edge> = vec![
        across(50.0, 60.0, 5.0),
        across(0.0, 10.0, 5.0),
        across(12.0, 30.0, 5.0),
        across(14.0, 20.0, 5.0),
    ];
    let joined: Vec<Edge> = join_edge_group(&group, Orientation::Horizontal, f(3.0));
    assert_eq!(
        joined.iter().map(|e| (n(e.x0), n(e.x1), n(e.width))).collect::<Vec<_>>(),
        vec![(0.0, 30.0, 30.0), (50.0, 60.0, 10.0)]
    );
    let group: Vec<Edge> = vec![down(5.0, 20.0, 40.0), down(5.0, 0.0, 18.0)];
    let joined: Vec<Edge> = join_edge_group(&group, Orientation::Vertical, f(3.0));
    assert_eq!(joined.len(), 1);
    assert_eq!((n(joined[0].top), n(joined[0].bottom), n(joined[0].height)), (0.0, 40.0, 40.0));
    assert_eq!(join_edge_group(&Vec::new(), Orientation::Vertical, f(3.0)).len(), 0);
}

#[test]
fn merged_edges_are_snapped_and_joined() {
    let edges: Vec<Edge> = vec![
        down(90.0, 0.0, 50.0),
        across(0.0, 40.0, 10.0),
        across(42.0, 90.0, 12.0),
        down(0.0, 0.0, 50.0),
    ];
    let merged: Vec<Edge> = merge_edges(&edges, f(3.0), f(3.0), f(3.0), f(3.0));
    assert_eq!(merged.len(), 3);
    assert_eq!(merged[0].orientation, Orientation::Horizontal);
    assert_eq!((n(merged[0].x0), n(merged[0].x1), n(merged[0].top)), (0.0, 90.0, 11.0));
    assert_eq!(n(merged[1].x0), 0.0);
    assert_eq!(n(merged[2].x0), 90.0);
    let apart: Vec<Edge> = merge_edges(&edges, f(0.0), f(0.0), f(3.0), f(3.0));
    assert_eq!(apart.len(), 4);
}

#[test]
fn merging_again_changes_nothing() {
    let edges: Vec<Edge> = vec![
        down(90.0, 0.0, 50.0),
        across(41.0, 90.0, 10.0),
        across(0.0, 40.0, 10.0),
        down(90.0, 60.0, 70.0),
        across(100.0, 120.0, 10.0),
        across(0.0, 40.0, 9.0),
    ];
    let once: Vec<Edge> = merge_edges(&edges, f(0.0), f(0.0), f(3.0), f(3.0));
    let twice: Vec<Edge> = merge_edges(&once, f(0.0), f(0.0), f(3.0), f(3.0));
    let seen = |list: &Vec<Edge>| {
        list.iter()
            .map(|e| (e.orientation, n(e.x0), n(e.top), n(e.x1), n(e.bottom), n(e.width), n(e.height)))
            .collect::<Vec<_>>()
    };
    assert_eq!(once.len(), 5);
    assert_eq!(seen(&once), seen(&twice));
    assert_eq!((n(once[1].x0), n(once[1].x1)), (0.0, 90.0));
}

#[test]
fn nearly_level_lines_are_horizontal() {
    assert_eq!(line_to_edge(&drawn(0.0, 5.0, 10.0, 5.00009)).orientation, Orientation::Horizontal);
    assert_eq!(line_to_edge(&drawn(0.0, 5.0, 10.0, 5.0002)).orientation, Orientation::Vertical);
    assert_eq!(line_to_edge(&drawn(0.0, 5.0, 10.0, 5.0)).object_type, "line");
}

#[test]
fn curves_have_edges_along_the_axes() {
    let p = |x: f64, y: f64| Point { x: f(x), y: f(y) };
    let curve: Curve = Curve {
        object_type: "curve".to_string(),
        page_number: 1,
        x0: f(0.0),
        top: f(0.0),
        x1: f(10.0),
        bottom: f(10.0),
        y0: f(0.0),
        y1: f(0.0),
        doctop: f(0.0),
        width: f(10.0),
        height: f(10.0),
        pts: vec![p(10.0, 0.0), p(0.0, 0.0), p(0.0, 10.0), p(5.0, 5.0)],
        path: Vec::new(),
        stroke: true,
        fill: false,
        linewidth: f(0.0),
    };
    let edges: Vec<Edge> = curve_to_edges(&curve);
    assert_eq!(edges.len(), 2);
    assert_eq!(edges[0].orientation, Orientation::Horizontal);
    assert_eq!((n(edges[0].x0), n(edges[0].x1), n(edges[0].width)), (0.0, 10.0, 10.0));
    assert_eq!(edges[1].orientation, Orientation::Vertical);
    assert_eq!((n(edges[1].top), n(edges[1].bottom), n(edges[1].height)), (0.0, 10.0, 10.0));
    assert_eq!(edges[1].object_type, "curve_edge");
}

#[test]
fn lines_of_words_suggest_edges_around_them() {
    let words: Vec<Word> = vec![
        word(10.0, 10.0, 30.0, 20.0),
        word(40.0, 10.5, 60.0, 21.0),
        word(5.0, 50.0, 25.0, 60.0),
    ];
    let edges: Vec<Edge> = words_to_edges_h(&words, 1);
    assert_eq!(
        edges.iter().map(|e| (n(e.x0), n(e.x1), n(e.top))).collect::<Vec<_>>(),
        vec![(5.0, 60.0, 10.0), (5.0, 60.0, 21.0), (5.0, 60.0, 50.0), (5.0, 60.0, 60.0)]
    );
    assert_eq!(edges[0].object_type, "text");
    assert_eq!(words_to_edges_h(&words, 2).len(), 2);
    assert_eq!(words_to_edges_h(&words, 3).len(), 0);
}

#[test]
fn columns_of_words_suggest_edges_between_them() {
    let mut words: Vec<Word> = Vec::new();
    for top in [0.0, 20.0, 40.0] {
        words.push(word(10.0, top, 30.0, top + 10.0));
        words.push(word(60.0, top, 90.0, top + 10.0));
    }
    let edges: Vec<Edge> = words_to_edges_v(&words, 3);
    assert_eq!(
        edges.iter().map(|e| (n(e.x0), n(e.top), n(e.bottom))).collect::<Vec<_>>(),
        vec![(10.0, 0.0, 50.0), (60.0, 0.0, 50.0), (90.0, 0.0, 50.0)]
    );
    assert_eq!(words_to_edges_v(&words, 4).len(), 0);
    assert_eq!(words_to_edges_v(&Vec::new(), 1).len(), 0);
}

#[test]
fn text_strategies_ask_for_words() {
    let page: Page = ruled_page();
    let mut settings: TableSettings = TableSettings::default();
    settings.vertical_strategy = TableStrategy::Text;
    settings.horizontal_strategy = TableStrategy::Text;
    let finder: TableFinder = TableFinder::new(&page, settings, |chars, _options, _split| {
        assert_eq!(chars.len(), 4);
        let mut words: Vec<Word> = Vec::new();
        for top in [0.0, 20.0, 40.0] {
            words.push(word(10.0, top, 30.0, top + 10.0));
            words.push(word(60.0, top, 90.0, top + 10.0));
        }
        words
    })
    .unwrap();
    assert_eq!(finder.tables.len(), 1);
    assert_eq!(finder.tables[0].shape(), (5, 2));
}
