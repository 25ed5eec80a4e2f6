use crabmd::desktop::{
    app_root_from_exe, bundle_from_exe, cellar_opt_path, exe_is_inside_app, is_dev_binary,
    linux_desktop, pick_bundle_in_order, png_to_ico, ps_single, shell_quote,
    windows_shortcut_script, macos_plist,
};

#[test]
fn dev_binaries_detected() {
    assert!(is_dev_binary("/Users/me/crabmd/target/debug/crabmd"));
    assert!(is_dev_binary(r"C:\src\crabmd\target\release\crabmd.exe"));
    assert!(!is_dev_binary("/opt/homebrew/bin/crabmd"));
    assert!(!is_dev_binary("/home/me/.cargo/bin/crabmd"));
}

#[test]
fn cellar_rewrites_to_opt() {
    let cellar = "/opt/homebrew/Cellar/crabmd/0.0.2/bin/crabmd";
    // The installer uses the opt path only when it exists on disk.
    let got = match cellar_opt_path(cellar) {
        Some(opt) if std::path::Path::new(&opt).exists() => opt,
        _ => cellar.to_string(),
    };
    if got != cellar {
        assert!(got.ends_with("opt/crabmd/bin/crabmd"));
    }
}

#[test]
fn cellar_path_names_opt_link() {
    assert_eq!(
        cellar_opt_path("/opt/homebrew/Cellar/crabmd/0.0.2/bin/crabmd"),
        Some("/opt/homebrew/opt/crabmd/bin/crabmd".to_string())
    );
    assert_eq!(cellar_opt_path("/usr/local/bin/crabmd"), None);
}

#[test]
fn ico_header_is_png_wrapped() {
    let png = b"\x89PNG\r\n\x1a\n";
    let ico = png_to_ico(png);
    assert_eq!(&ico[0..6], &[0, 0, 1, 0, 1, 0]);
    assert_eq!(&ico[22..], png);
    let size = u32::from_le_bytes(ico[14..18].try_into().unwrap());
    assert_eq!(size as usize, png.len());
}

#[test]
fn shell_quote_spaces() {
    assert_eq!(shell_quote("/usr/bin/crabmd"), "/usr/bin/crabmd");
    assert_eq!(shell_quote("/home/a b/crabmd"), "\"/home/a b/crabmd\"");
}

#[test]
fn shell_quote_escapes_quotes() {
    assert_eq!(shell_quote("a\"b"), "\"a\\\"b\"");
}

#[test]
fn desktop_file_points_at_exe() {
    let body = linux_desktop("/usr/bin/crabmd");
    assert!(body.contains("Exec=/usr/bin/crabmd %F"));
    assert!(body.contains("StartupWMClass=ai.blankeos.crabmd"));
}

#[test]
fn exe_inside_app_detection() {
    // Raw LS launch + resolved cask shim both count as inside-app.
    assert!(exe_is_inside_app(
        "/Applications/CrabMD.app/Contents/MacOS/crabmd"
    ));
    assert!(exe_is_inside_app(
        "/Users/me/Applications/CrabMD.app/Contents/MacOS/crabmd"
    ));
    assert!(!exe_is_inside_app("/opt/homebrew/bin/crabmd"));
    assert!(!exe_is_inside_app(
        "/opt/homebrew/Cellar/crabmd/0.0.3/bin/crabmd"
    ));
    assert!(!exe_is_inside_app("/usr/local/bin/crabmd"));
}

#[test]
fn bundle_root_from_exe() {
    assert_eq!(
        bundle_from_exe("/Applications/CrabMD.app/Contents/MacOS/crabmd"),
        Some("/Applications/CrabMD.app".to_string())
    );
    assert_eq!(
        app_root_from_exe("/Users/me/Applications/CrabMD.app/Contents/MacOS/crabmd"),
        Some("/Users/me/Applications/CrabMD.app".to_string())
    );
    assert_eq!(bundle_from_exe("/opt/homebrew/bin/crabmd"), None);
}

#[test]
fn parents_of_short_paths() {
    assert_eq!(app_root_from_exe("/a/b/c"), Some("/".to_string()));
    assert_eq!(app_root_from_exe("a/b/c"), Some("".to_string()));
    assert_eq!(app_root_from_exe("b/c"), None);
}

#[test]
fn bundle_priority_prefers_exe_identity() {
    let exe = Some("/Applications/CrabMD.app".to_string());
    let sys = Some("/Applications/CrabMD.app".to_string());
    let home = Some("/Users/me/Applications/CrabMD.app".to_string());
    // Exe bundle wins even when system/home copies exist (same identity).
    assert_eq!(
        pick_bundle_in_order(&[exe.clone(), sys.clone(), home.clone()]),
        exe
    );
    // No exe bundle → system before home.
    assert_eq!(
        pick_bundle_in_order(&[None, sys.clone(), home.clone()]),
        sys
    );
    assert_eq!(pick_bundle_in_order(&[None, None, home.clone()]), home);
    assert_eq!(pick_bundle_in_order(&[None, None, None]), None);
}

#[test]
fn powershell_quotes_double_single_quotes() {
    assert_eq!(ps_single("C:\\Users\\ann"), "C:\\Users\\ann");
    assert_eq!(ps_single("O'Brien's"), "O''Brien''s");
    assert_eq!(ps_single(""), "");
}

#[test]
fn windows_shortcut_script_fills_every_path() {
    let script = windows_shortcut_script(
        "C:\\Start\\CrabMD.lnk",
        "C:\\Apps\\crabmd.exe",
        "C:\\Apps",
        "C:\\Data\\O'Neil\\crabmd.ico",
    );
    assert_eq!(
        script,
        "$s = (New-Object -ComObject WScript.Shell).CreateShortcut('C:\\Start\\CrabMD.lnk');\
         $s.TargetPath = 'C:\\Apps\\crabmd.exe';\
         $s.WorkingDirectory = 'C:\\Apps';\
         $s.IconLocation = 'C:\\Data\\O''Neil\\crabmd.ico,0';\
         $s.Description = 'CrabMD';\
         $s.Save()"
    );
}

#[test]
fn plist_carries_the_version_twice() {
    let plist = macos_plist("1.2.3");
    assert_eq!(plist.matches("<string>1.2.3</string>").count(), 2);
    assert!(plist.contains("<key>CFBundleIdentifier</key><string>ai.blankeos.crabmd</string>"));
    assert_eq!(plist, "<?xml version=\"1.0\" encoding=\"UTF-8\"?>\n<!DOCTYPE plist PUBLIC \"-//Apple//DTD PLIST 1.0//EN\" \"http://www.apple.com/DTDs/PropertyList-1.0.dtd\">\n<plist version=\"1.0\">\n<dict>\n  <key>CFBundleDevelopmentRegion</key><string>en</string>\n  <key>CFBundleDisplayName</key><string>CrabMD</string>\n  <key>CFBundleExecutable</key><string>crabmd</string>\n  <key>CFBundleIconFile</key><string>AppIcon</string>\n  <key>CFBundleIdentifier</key><string>ai.blankeos.crabmd</string>\n  <key>CFBundleInfoDictionaryVersion</key><string>6.0</string>\n  <key>CFBundleName</key><string>CrabMD</string>\n  <key>CFBundlePackageType</key><string>APPL</string>\n  <key>CFBundleShortVersionString</key><string>1.2.3</string>\n  <key>CFBundleVersion</key><string>1.2.3</string>\n  <key>LSApplicationCategoryType</key><string>public.app-category.productivity</string>\n  <key>LSMinimumSystemVersion</key><string>11.0</string>\n  <key>NSHighResolutionCapable</key><true/>\n  <key>CFBundleDocumentTypes</key>\n  <array>\n    <dict>\n      <key>CFBundleTypeExtensions</key>\n      <array>\n        <string>md</string>\n        <string>markdown</string>\n        <string>mdown</string>\n        <string>mkd</string>\n      </array>\n      <key>CFBundleTypeName</key><string>Markdown document</string>\n      <key>CFBundleTypeRole</key><string>Editor</string>\n      <key>LSHandlerRank</key><string>Alternate</string>\n    </dict>\n  </array>\n</dict>\n</plist>\n");
}
