use nelsie::resources::{FontMetrics, ImageInfo, Resources};

#[test]
fn empty_tables_hold_nothing() {
    let res = Resources::new();
    assert!(res.find_font(&String::from("Sans")).is_none());
    assert!(res.find_image(&String::from("a.png")).is_none());
}

#[test]
fn the_first_entry_of_a_name_is_found() {
    let res = Resources {
        fonts: vec![
            FontMetrics::new("Sans", 500, 1200),
            FontMetrics::new("Mono", 600, 1000),
            FontMetrics::new("Sans", 1, 2),
        ],
        images: vec![ImageInfo::new("a.png", 40, 30), ImageInfo::new("b.png", 1, 2)],
    };
    assert_eq!(res.find_font(&String::from("Sans")), Some(&FontMetrics::new("Sans", 500, 1200)));
    assert_eq!(res.find_font(&String::from("Mono")).unwrap().advance, 600);
    assert!(res.find_font(&String::from("sans")).is_none());
    assert_eq!(res.find_image(&String::from("b.png")), Some(&ImageInfo::new("b.png", 1, 2)));
    assert!(res.find_image(&String::from("c.png")).is_none());
}

#[test]
fn resource_constructors_keep_what_they_are_given() {
    let f = FontMetrics::new("Sans", 500, 1200);
    assert_eq!(f.family, "Sans");
    assert_eq!(f.advance, 500);
    assert_eq!(f.line_height, 1200);
    let i = ImageInfo::new("a.png", 40, 30);
    assert_eq!(i.path, "a.png");
    assert_eq!(i.width, 40);
    assert_eq!(i.height, 30);
}
