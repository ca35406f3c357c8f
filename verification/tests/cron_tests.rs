use kic::setting::cron::Cron;

#[test]
fn my_area_is_empty_should_return_true() {
    let empties = ["", " ", "\t", "\r", "\n", " \t\r\n"];
    for empty in &empties {
        let cron = Cron {
            bin: "".to_string(),
            upper: "".to_string(),
            my_area: empty.to_string(),
            lower: "".to_string(),
        };
        assert!(cron.my_area_is_empty());
    }
}

#[test]
fn my_area_is_empty_should_return_false() {
    let non_empties = [
        "a", "ab", " ab", "a b", "ab ", "\tab", "a\tb", "ab\t", "\rab", "a\rb", "ab\r", "\nab",
        "a\nb", "ab\n", " \t\r\nab", "a \t\r\nb", "ab \t\r\n",
    ];
    for non_empty in &non_empties {
        let cron = Cron {
            bin: "".to_string(),
            upper: "".to_string(),
            my_area: non_empty.to_string(),
            lower: "".to_string(),
        };
        assert!(!cron.my_area_is_empty());
    }
}

#[test]
fn delete_should_success() {
    fn wrap_by_extra_content(target: &str) -> String {
        let extra_content = "when cd path_to_extra && path_to_bin command\n";
        format!("{}{}{}", extra_content, target, extra_content)
    }

    let mut cron = Cron {
        bin: "path_to_bin".to_string(),
        upper: "upper".to_string(),
        my_area: "middle".to_string(),
        lower: "lower".to_string(),
    };

    let dir = "path_to_dir";

    let areas = vec![
        ("".to_string(), format!("cd {} && {}\n", dir, &cron.bin)),
        ("".to_string(), format!("when cd {} && {}\n", dir, &cron.bin)),
        ("".to_string(), format!("cd {} && {} command\n", dir, &cron.bin)),
        ("".to_string(), format!("when cd {} && {} command\n", dir, &cron.bin)),
        (
            wrap_by_extra_content(""),
            wrap_by_extra_content(&format!("cd {} && {}\n", dir, &cron.bin)),
        ),
        (
            wrap_by_extra_content(""),
            wrap_by_extra_content(&format!("when cd {} && {}\n", dir, &cron.bin)),
        ),
        (
            wrap_by_extra_content(""),
            wrap_by_extra_content(&format!("cd {} && {} command\n", dir, &cron.bin)),
        ),
        (
            wrap_by_extra_content(""),
            wrap_by_extra_content(&format!("when cd {} && {} command\n", dir, &cron.bin)),
        ),
    ];

    for (correct, area) in areas.into_iter() {
        cron.my_area = area;
        let deleted = cron.delete(&dir);
        assert!(deleted.is_ok());
        assert_eq!(correct, cron.my_area);
    }
}

#[test]
fn discard_should_remove_lines_including_non_existing_dir() {
    let mut cron = Cron {
        bin: "path_to_bin".to_string(),
        upper: "upper".to_string(),
        my_area: "middle".to_string(),
        lower: "lower".to_string(),
    };

    cron.my_area = format!(
        "
        cd /bin && {} command
        cd /bin && {} command2
        cd /path/to/non/existing/dir && {} command
        cd /path/to/non/existing/dir && {} command2
        cd /path/to/really/non/existing/dir && {} command
        cd /path/to/really/non/existing/dir && {} command2
    ",
        &cron.bin, &cron.bin, &cron.bin, &cron.bin, &cron.bin, &cron.bin
    );

    let cron = cron.discard();
    assert!(cron.is_ok());
    assert!(cron.unwrap().my_area_is_empty());
}

#[test]
fn discard_should_surface_pattern_errors() {
    let mut cron = Cron {
        bin: "path_to_bin".to_string(),
        upper: "upper".to_string(),
        my_area: "middle".to_string(),
        lower: "lower".to_string(),
    };

    cron.my_area = format!(
        "
        cd /(/mischief/by/bad/user && {} command
    ",
        &cron.bin
    );

    let cron = cron.discard();
    assert!(cron.is_err());
}

#[test]
fn from_contents_should_split_around_marks() {
    let bin = "/usr/local/bin/kic";
    let start = Cron::start_mark(bin);
    let end = Cron::end_mark();
    let contents = format!("upper\n{}0 0 * * *\tline\n{}lower\n", start, end);
    let cron = Cron::from_contents(&contents, bin);
    assert_eq!("upper\n", cron.upper);
    assert_eq!("0 0 * * *\tline\n", cron.my_area);
    assert_eq!("lower\n", cron.lower);

    let plain = Cron::from_contents("just some table\n", bin);
    assert_eq!("just some table\n", plain.upper);
    assert_eq!("", plain.my_area);
}

#[test]
fn update_should_replace_own_lines() {
    let cron = Cron {
        bin: "path_to_bin".to_string(),
        upper: "".to_string(),
        my_area: "0 1 * * *\tcd /somewhere && path_to_bin sweep indeed\n".to_string(),
        lower: "".to_string(),
    };
    let pairs = vec![
        ("0 0 * * *".to_string(), "burn indeed".to_string()),
        ("30 2 * * *".to_string(), "sweep indeed".to_string()),
    ];
    let updated = cron.update("/somewhere", &pairs).unwrap();
    assert_eq!(
        "0 0 * * *\tcd /somewhere && path_to_bin burn indeed\n30 2 * * *\tcd /somewhere && path_to_bin sweep indeed\n",
        updated.my_area
    );
}
