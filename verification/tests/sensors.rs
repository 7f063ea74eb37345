use loadpeek::double::Double;
use loadpeek::metrics::Snapshot;
use loadpeek::sensors::{
    cpu_sensor_name, discover_sensors, read_temperature, temperature_channel, trip_point, Attribute,
    Monitor, Sensor, TripPoint, Zone,
};
use std::collections::BTreeMap;

fn f(value: Double) -> f64 {
    f64::from_bits(value.bits)
}

/// What a path leads to.
#[derive(Clone)]
enum Node {
    Text(String),
    Link(String),
    Directory,
}

/// The files below the root of the system's devices.
struct Fixture {
    nodes: BTreeMap<String, Node>,
}

impl Fixture {
    fn new() -> Self {
        Fixture { nodes: BTreeMap::new() }
    }

    fn write(&mut self, path: &str, text: &str) {
        self.nodes.insert(path.to_owned(), Node::Text(text.to_owned()));
    }

    fn link(&mut self, target: &str, path: &str) {
        self.nodes.insert(path.to_owned(), Node::Link(target.to_owned()));
    }

    fn create_dir(&mut self, path: &str) {
        self.nodes.insert(path.to_owned(), Node::Directory);
    }

    fn remove(&mut self, path: &str) {
        assert!(self.nodes.remove(path).is_some());
    }

    fn canonical(&self, path: &str) -> String {
        match self.nodes.get(path) {
            Some(Node::Link(target)) => target.clone(),
            _ => path.to_owned(),
        }
    }

    fn text(&self, path: &str) -> Option<String> {
        match self.nodes.get(&self.canonical(path)) {
            Some(Node::Text(text)) => Some(text.clone()),
            _ => None,
        }
    }

    /// The names directly below a directory.
    fn names(&self, directory: &str) -> Vec<String> {
        let mut names: Vec<String> = self
            .nodes
            .keys()
            .filter_map(|path| path.strip_prefix(directory)?.strip_prefix('/'))
            .map(|rest| rest.split('/').next().unwrap().to_owned())
            .collect();
        names.dedup();
        names
    }

    fn attributes(&self, directory: &str) -> Vec<Attribute> {
        self.names(directory)
            .into_iter()
            .map(|file_name| {
                let path = format!("{directory}/{file_name}");
                let channel = file_name.strip_suffix("_input").unwrap_or("other");
                let fellow = |kind: &str| self.text(&format!("{directory}/{channel}_{kind}"));
                Attribute {
                    source: self.canonical(&path),
                    input: self.text(&path),
                    enable: fellow("enable"),
                    kind: fellow("type"),
                    fault: fellow("fault"),
                    label: fellow("label"),
                    critical: fellow("crit"),
                    file_name,
                }
            })
            .collect()
    }

    fn monitors(&self) -> Vec<Monitor> {
        self.names("class/hwmon")
            .into_iter()
            .map(|file_name| {
                let root = format!("class/hwmon/{file_name}");
                let older = format!("{root}/device");
                let mut attributes = self.attributes(&root);
                attributes.extend(self.attributes(&older));
                Monitor {
                    name: self.text(&format!("{root}/name")),
                    device_name: self.text(&format!("{older}/name")),
                    device: root,
                    attributes,
                    file_name,
                }
            })
            .collect()
    }

    fn zones(&self) -> Vec<Zone> {
        self.names("class/thermal")
            .into_iter()
            .map(|file_name| {
                let root = format!("class/thermal/{file_name}");
                Zone {
                    kind: self.text(&format!("{root}/type")),
                    source: self.canonical(&format!("{root}/temp")),
                    input: self.text(&format!("{root}/temp")),
                    trip_points: self
                        .names(&root)
                        .into_iter()
                        .map(|name| TripPoint {
                            kind: self.text(&format!("{root}/{name}")),
                            temperature: self.text(&format!(
                                "{root}/{}_temp",
                                name.strip_suffix("_type").unwrap_or("other")
                            )),
                            file_name: name,
                        })
                        .collect(),
                    file_name,
                }
            })
            .collect()
    }

    fn discover(&self, warnings: &mut Vec<String>) -> Vec<Sensor> {
        discover_sensors(&self.monitors(), &self.zones(), warnings)
    }

    fn sample(&self) -> Vec<Sensor> {
        self.discover(&mut Vec::new())
    }

    fn snapshot(&self) -> Snapshot {
        Snapshot { sensors: self.sample(), ..Snapshot::default() }
    }

    fn quiet_snapshot(&self) -> Snapshot {
        let mut warnings = Vec::new();
        let sensors = self.discover(&mut warnings);
        assert!(warnings.is_empty(), "{warnings:?}");
        Snapshot { sensors, ..Snapshot::default() }
    }
}

fn hottest(snapshot: &Snapshot) -> Option<f64> {
    snapshot.cpu_temperature().map(f)
}

#[test]
fn legacy_hwmon_device_names_identify_cpu_readings() {
    let mut fixture = Fixture::new();
    fixture.write("class/hwmon/hwmon0/device/name", "k8temp");
    fixture.write("class/hwmon/hwmon0/device/temp1_input", "45000");
    let snapshot = fixture.snapshot();
    assert_eq!(snapshot.sensors[0].label, "k8temp · temp1");
    assert!(snapshot.sensors[0].is_cpu);
    assert_eq!(hottest(&snapshot), Some(45.0));

    // A name provided on the hwmon class device takes precedence.
    fixture.write("class/hwmon/hwmon0/name", "coretemp");
    assert_eq!(fixture.sample()[0].label, "coretemp · temp1");
}

fn write_amd_temperatures(fixture: &mut Fixture, hwmon: usize, die: Option<&str>) {
    let root = format!("class/hwmon/hwmon{hwmon}");
    fixture.write(&format!("{root}/name"), "k10temp");
    fixture.write(&format!("{root}/temp1_label"), "Tctl");
    fixture.write(&format!("{root}/temp1_input"), "75000");
    if let Some(die) = die {
        fixture.write(&format!("{root}/temp2_label"), "Tdie");
        fixture.write(&format!("{root}/temp2_input"), die);
    }
}

#[test]
fn cpu_temperature_prefers_die_but_retains_control_details_and_hottest_ccd() {
    let mut fixture = Fixture::new();
    write_amd_temperatures(&mut fixture, 0, Some("55000"));
    fixture.write("class/hwmon/hwmon0/temp3_label", "Tccd1");
    fixture.write("class/hwmon/hwmon0/temp3_input", "65000");
    let snapshot = fixture.snapshot();
    assert_eq!(hottest(&snapshot), Some(65.0));
    assert_eq!(snapshot.sensors.len(), 3);
    let control = snapshot
        .sensors
        .iter()
        .find(|sensor| sensor.label.ends_with("Tctl"))
        .unwrap();
    assert_eq!(f(control.celsius), 75.0);
    assert!(control.is_cpu);
}

#[test]
fn cpu_temperature_control_fallback_is_per_device_and_recovers_from_faults() {
    let mut fixture = Fixture::new();
    write_amd_temperatures(&mut fixture, 0, Some("55000"));
    write_amd_temperatures(&mut fixture, 1, None);
    // Another CPU's physical reading must not hide this CPU's only channel.
    assert_eq!(hottest(&fixture.snapshot()), Some(75.0));
    write_amd_temperatures(&mut fixture, 1, Some("60000"));
    assert_eq!(hottest(&fixture.snapshot()), Some(60.0));

    fixture.write("class/hwmon/hwmon1/temp2_fault", "1");
    assert_eq!(hottest(&fixture.snapshot()), Some(75.0));
    fixture.write("class/hwmon/hwmon1/temp2_fault", "0");
    fixture.write("class/hwmon/hwmon1/temp2_input", "NaN");
    assert_eq!(hottest(&fixture.snapshot()), Some(75.0));
    fixture.write("class/hwmon/hwmon1/temp2_input", "60000");
    assert_eq!(hottest(&fixture.snapshot()), Some(60.0));
}

#[test]
fn temperature_discovery_uses_labels_critical_limits_and_fallbacks() {
    let mut fixture = Fixture::new();
    fixture.write("class/hwmon/hwmon0/name", "coretemp");
    fixture.write("class/hwmon/hwmon0/temp1_label", "Package id 0");
    fixture.write("class/hwmon/hwmon0/temp1_input", "51500");
    fixture.write("class/hwmon/hwmon0/temp1_crit", "100000");
    fixture.write("class/thermal/thermal_zone0/type", "x86_pkg_temp");
    fixture.write("class/thermal/thermal_zone0/temp", "51500");
    fixture.write("class/thermal/thermal_zone1/type", "acpitz");
    fixture.write("class/thermal/thermal_zone1/temp", "43000");
    fixture.write("class/thermal/thermal_zone1/trip_point_0_type", "critical");
    fixture.write("class/thermal/thermal_zone1/trip_point_0_temp", "105000");
    let sensors = fixture.sample();
    // Equal readings and compatible driver names do not prove a shared input.
    assert_eq!(sensors.len(), 3);
    assert!(sensors[0].is_cpu);
    assert_eq!(sensors[0].label, "coretemp · Package id 0");
    assert_eq!(f(sensors[0].celsius), 51.5);
    assert_eq!(sensors[0].critical_celsius.map(f), Some(100.0));
    assert_eq!(sensors[1].label, "x86_pkg_temp");
    assert_eq!(sensors[2].critical_celsius.map(f), Some(105.0));
}

#[test]
fn temperature_zones_fill_partial_hwmon_package_readings() {
    let mut fixture = Fixture::new();
    fixture.write("class/hwmon/hwmon0/name", "coretemp");
    fixture.write("class/hwmon/hwmon0/temp1_label", "Package id 0");
    fixture.write("class/hwmon/hwmon0/temp1_input", "40000");
    fixture.write("class/hwmon/hwmon1/name", "coretemp");
    fixture.write("class/hwmon/hwmon1/temp1_label", "Package id 1");
    fixture.write("class/hwmon/hwmon1/temp2_label", "Core 0");
    fixture.write("class/hwmon/hwmon1/temp2_input", "45000");
    fixture.write("class/thermal/thermal_zone0/type", "x86_pkg_temp");
    fixture.write("class/thermal/thermal_zone0/temp", "40000");
    fixture.write("class/thermal/thermal_zone1/type", "x86_pkg_temp");
    fixture.write("class/thermal/thermal_zone1/temp", "80000");

    // Another package and a readable core must not hide this package's zone.
    for package_input in [None, Some("invalid")] {
        if let Some(value) = package_input {
            fixture.write("class/hwmon/hwmon1/temp1_input", value);
        }
        let snapshot = fixture.snapshot();
        assert_eq!(hottest(&snapshot), Some(80.0));
        assert_eq!(snapshot.sensors.len(), 4);
        assert_eq!(
            snapshot
                .sensors
                .iter()
                .filter(|sensor| sensor.label == "x86_pkg_temp")
                .count(),
            2
        );
    }
}

#[test]
fn temperature_zones_with_the_same_driver_remain_independent() {
    let mut fixture = Fixture::new();
    fixture.write("class/hwmon/hwmon0/name", "acpitz");
    fixture.write("class/hwmon/hwmon0/temp1_input", "40000");
    fixture.write("class/hwmon/hwmon0/temp2_input", "invalid");
    fixture.write("class/thermal/thermal_zone0/type", "acpitz");
    fixture.write("class/thermal/thermal_zone0/temp", "40000");
    fixture.write("class/thermal/thermal_zone1/type", "acpitz");
    fixture.write("class/thermal/thermal_zone1/temp", "80000");
    let mut warnings = Vec::new();
    let sensors = fixture.discover(&mut warnings);
    assert_eq!(sensors.len(), 3);
    assert_eq!(
        sensors
            .iter()
            .filter(|sensor| f(sensor.celsius) == 40.0)
            .count(),
        2
    );
    assert_eq!(
        sensors
            .iter()
            .filter(|sensor| f(sensor.celsius) == 80.0)
            .count(),
        1
    );
    assert_eq!(
        warnings,
        ["1 temperature reading(s) were unavailable or invalid."]
    );
}

#[test]
fn temperature_aliases_share_measurement_rejections_and_recover() {
    let mut fixture = Fixture::new();
    fixture.write("class/hwmon/hwmon0/name", "acpitz");
    fixture.write("class/hwmon/hwmon0/temp1_input", "55000");
    fixture.write("class/hwmon/hwmon0/temp1_crit", "95000");
    fixture.write("class/thermal/thermal_zone0/type", "acpitz");
    fixture.write("class/thermal/thermal_zone0/trip_point_0_type", "critical");
    fixture.write("class/thermal/thermal_zone0/trip_point_0_temp", "95000");
    fixture.link(
        "class/hwmon/hwmon0/temp1_input",
        "class/thermal/thermal_zone0/temp",
    );

    let mut warnings = Vec::new();
    let sensors = fixture.discover(&mut warnings);
    assert_eq!(sensors.len(), 1);
    assert_eq!(sensors[0].label, "acpitz · temp1");
    assert_eq!(sensors[0].critical_celsius.map(f), Some(95.0));
    assert!(warnings.is_empty());

    // A fault invalidates this input through both paths even though the
    // thermal alias does not expose its own fault flag.
    fixture.write("class/hwmon/hwmon0/temp1_fault", "1");
    let sensors = fixture.discover(&mut warnings);
    assert!(sensors.is_empty());
    assert!(warnings
        .iter()
        .any(|warning| warning.contains("Temperature sensors are unavailable")));

    fixture.write("class/hwmon/hwmon0/temp1_fault", "0");
    warnings.clear();
    let sensors = fixture.discover(&mut warnings);
    assert_eq!(sensors.len(), 1);
    assert_eq!(sensors[0].label, "acpitz · temp1");
    assert!(warnings.is_empty());

    fixture.write("class/hwmon/hwmon0/temp1_enable", "0");
    assert!(fixture.sample().is_empty());
    fixture.write("class/hwmon/hwmon0/temp1_enable", "1");
    assert_eq!(fixture.sample().len(), 1);

    // The legacy view is scanned after the modern one. A rejection found
    // later must also invalidate a reading accepted through the first view.
    fixture.write("class/hwmon/hwmon0/device/temp1_fault", "1");
    fixture.link(
        "class/hwmon/hwmon0/temp1_input",
        "class/hwmon/hwmon0/device/temp1_input",
    );
    assert!(fixture.sample().is_empty());
}

#[test]
fn temperature_vt1211_requires_conversion_except_for_its_internal_diode() {
    for directory in ["class/hwmon/hwmon0", "class/hwmon/hwmon0/device"] {
        let mut fixture = Fixture::new();
        fixture.write(&format!("{directory}/name"), "vt1211");
        // temp1 is a thermal diode requiring board-specific offset/gain.
        fixture.write(&format!("{directory}/temp1_input"), "100000");
        fixture.write(&format!("{directory}/temp2_input"), "42000");
        fixture.write(&format!("{directory}/temp2_crit"), "100000");
        for channel in 3..=7 {
            // Upstream temp_from_reg(channel - 1, 148) returns 1100 mV.
            fixture.write(&format!("{directory}/temp{channel}_input"), "1100");
        }
        let mut warnings = Vec::new();
        let sensors = fixture.discover(&mut warnings);
        assert_eq!(sensors.len(), 1);
        assert_eq!(sensors[0].label, "vt1211 · temp2");
        assert_eq!(f(sensors[0].celsius), 42.0);
        assert_eq!(sensors[0].critical_celsius.map(f), Some(100.0));
        assert_eq!(
            warnings,
            ["6 VT1211 external sensor channel(s) require board-specific conversion and are omitted."]
        );

        // Channel numbers alone must not suppress another driver's sensors.
        fixture.write(&format!("{directory}/name"), "other");
        warnings.clear();
        assert_eq!(fixture.discover(&mut warnings).len(), 7);
        assert!(warnings.is_empty());
    }
}

#[test]
fn temperature_vt1211_conversion_notice_remains_without_usable_channels() {
    let mut fixture = Fixture::new();
    fixture.write("class/hwmon/hwmon0/name", "vt1211");
    fixture.write("class/hwmon/hwmon0/temp3_input", "1100");
    fixture.write("class/thermal/thermal_zone0/type", "vt1211");
    fixture.link(
        "class/hwmon/hwmon0/temp3_input",
        "class/thermal/thermal_zone0/temp",
    );
    let mut warnings = Vec::new();
    assert!(fixture.discover(&mut warnings).is_empty());
    assert!(warnings
        .iter()
        .any(|warning| warning.contains("require board-specific conversion")));
}

#[test]
fn temperature_unconverted_wm831x_and_vt8231_channels_preserve_calibrated_inputs() {
    for (driver, notice_name, channels) in
        [("wm831x", "WM831x", 2..=2), ("vt8231", "VT8231", 2..=6)]
    {
        for directory in ["class/hwmon/hwmon0", "class/hwmon/hwmon0/device"] {
            let mut fixture = Fixture::new();
            fixture.write(&format!("{directory}/name"), driver);
            fixture.write(&format!("{directory}/temp1_input"), "42000");
            fixture.write(&format!("{directory}/temp1_crit"), "100000");
            for channel in channels.clone() {
                // WM831x reports battery thermistor millivolts; VT8231's
                // external thermistors also require board-specific conversion.
                fixture.write(&format!("{directory}/temp{channel}_input"), "1100");
            }
            let mut warnings = Vec::new();
            let sensors = fixture.discover(&mut warnings);
            assert_eq!(sensors.len(), 1, "{driver} at {directory}");
            assert_eq!(sensors[0].label, format!("{driver} · temp1"));
            assert_eq!(f(sensors[0].celsius), 42.0);
            assert_eq!(sensors[0].critical_celsius.map(f), Some(100.0));
            assert_eq!(
                warnings,
                [format!(
                    "{} {notice_name} external sensor channel(s) require board-specific conversion and are omitted.",
                    channels.clone().count()
                )]
            );

            // Identical channel numbers on ordinary drivers remain readings.
            fixture.write(&format!("{directory}/name"), "other");
            warnings.clear();
            assert_eq!(
                fixture.discover(&mut warnings).len(),
                channels.clone().count() + 1
            );
            assert!(warnings.is_empty());
        }
    }
}

#[test]
fn temperature_unconverted_channels_reject_aliases_and_keep_availability_notices() {
    for (driver, notice_name) in [("wm831x", "WM831x"), ("vt8231", "VT8231")] {
        for (directory, alias) in [
            ("class/hwmon/hwmon0", "class/hwmon/hwmon0/device"),
            ("class/hwmon/hwmon0/device", "class/hwmon/hwmon0"),
        ] {
            let mut fixture = Fixture::new();
            fixture.write(&format!("{directory}/name"), driver);
            fixture.write(&format!("{directory}/temp2_input"), "1100");
            let input = format!("{directory}/temp2_input");
            fixture.link(&input, &format!("{alias}/temp2_input"));
            fixture.write("class/thermal/thermal_zone0/type", driver);
            fixture.link(&input, "class/thermal/thermal_zone0/temp");

            let mut warnings = Vec::new();
            assert!(fixture.discover(&mut warnings).is_empty());
            assert_eq!(warnings.len(), 2);
            assert!(warnings[0].contains("Temperature sensors are unavailable"));
            assert_eq!(
                warnings[1],
                format!(
                    "1 {notice_name} external sensor channel(s) require board-specific conversion and are omitted."
                )
            );
        }
    }
}

#[test]
fn invalid_and_disabled_temperature_inputs_stay_missing() {
    let mut fixture = Fixture::new();
    fixture.write("class/hwmon/hwmon0/name", "test");
    fixture.write("class/hwmon/hwmon0/temp1_input", "-2147483648");
    fixture.write("class/hwmon/hwmon0/temp2_input", "35000");
    fixture.write("class/hwmon/hwmon0/temp2_enable", "0");
    fixture.write("class/hwmon/hwmon0/temp3_input", "NaN");
    let mut warnings = Vec::new();
    assert!(fixture.discover(&mut warnings).is_empty());
    assert_eq!(warnings.len(), 1);
}

#[test]
fn faulted_temperature_channels_are_missing_until_the_fault_clears() {
    for directory in ["class/hwmon/hwmon0", "class/hwmon/hwmon0/device"] {
        let mut fixture = Fixture::new();
        fixture.write("class/hwmon/hwmon0/name", "max6697");
        fixture.write(&format!("{directory}/temp1_input"), "42000");
        fixture.write(&format!("{directory}/temp2_input"), "43000");
        fixture.write(&format!("{directory}/temp2_fault"), "0");
        let mut warnings = Vec::new();
        assert_eq!(fixture.discover(&mut warnings).len(), 2);
        assert!(warnings.is_empty());

        fixture.write(&format!("{directory}/temp2_input"), "127000");
        fixture.write(&format!("{directory}/temp2_fault"), "1");
        let sensors = fixture.discover(&mut warnings);
        assert_eq!(sensors.len(), 1);
        assert_eq!(sensors[0].label, "max6697 · temp1");
        assert_eq!(f(sensors[0].celsius), 42.0);
        assert_eq!(
            warnings,
            ["1 temperature reading(s) were unavailable or invalid."]
        );

        fixture.write(&format!("{directory}/temp2_input"), "44000");
        fixture.write(&format!("{directory}/temp2_fault"), "0");
        warnings.clear();
        let sensors = fixture.discover(&mut warnings);
        assert_eq!(sensors.len(), 2);
        assert_eq!(sensors[1].label, "max6697 · temp2");
        assert_eq!(f(sensors[1].celsius), 44.0);
        assert!(warnings.is_empty());
    }
}

#[test]
fn peci_control_targets_are_excluded_but_measurements_and_limits_remain() {
    let mut fixture = Fixture::new();
    fixture.write("class/hwmon/hwmon0/name", "peci_cputemp.cpu0");
    for (channel, label, value) in [
        (1, "Die", "40000"),
        (2, "DTS", "42000"),
        (3, "Tcontrol", "80000"),
        (4, "Tthrottle", "90000"),
        (5, "Tjmax", "100000"),
        (6, "Core 0", "41000"),
    ] {
        fixture.write(&format!("class/hwmon/hwmon0/temp{channel}_label"), label);
        fixture.write(&format!("class/hwmon/hwmon0/temp{channel}_input"), value);
    }
    fixture.write("class/hwmon/hwmon0/temp1_crit", "100000");
    // Other drivers use these channel numbers for actual measurements.
    fixture.write("class/hwmon/hwmon1/name", "coretemp");
    fixture.write("class/hwmon/hwmon1/temp3_label", "Core 1");
    fixture.write("class/hwmon/hwmon1/temp3_input", "43000");
    // A second path to Tjmax must not turn the control target into a sensor.
    fixture.write("class/thermal/thermal_zone0/type", "peci_cputemp.cpu0");
    fixture.link(
        "class/hwmon/hwmon0/temp5_input",
        "class/thermal/thermal_zone0/temp",
    );
    let mut warnings = Vec::new();
    let sensors = fixture.discover(&mut warnings);
    assert_eq!(sensors.len(), 4);
    assert!(sensors.iter().all(|sensor| sensor.is_cpu));
    assert_eq!(
        sensors.iter().map(|sensor| f(sensor.celsius)).reduce(f64::max),
        Some(43.0)
    );
    let die = sensors
        .iter()
        .find(|sensor| sensor.label == "peci_cputemp.cpu0 · Die")
        .unwrap();
    assert_eq!(f(die.celsius), 40.0);
    assert_eq!(die.critical_celsius.map(f), Some(100.0));
    assert!(warnings.is_empty());
}

#[test]
fn peci_dimm_readings_never_supply_the_cpu_headline() {
    for directory in ["class/hwmon/hwmon0", "class/hwmon/hwmon0/device"] {
        for driver in ["peci_dimmtemp", "peci_dimmtemp.cpu0", "peci_dimmtemp.cpu12"] {
            let mut fixture = Fixture::new();
            fixture.write(&format!("{directory}/name"), driver);
            fixture.write(&format!("{directory}/temp1_label"), "DIMM A1");
            fixture.write(&format!("{directory}/temp1_input"), "80000");
            fixture.write(&format!("{directory}/temp1_crit"), "95000");

            let dimm_only = fixture.snapshot();
            assert_eq!(dimm_only.sensors.len(), 1, "{driver} at {directory}");
            assert!(!dimm_only.sensors[0].is_cpu, "{driver} at {directory}");
            assert_eq!(hottest(&dimm_only), None);
            assert_eq!(f(dimm_only.sensors[0].celsius), 80.0);
            assert_eq!(dimm_only.sensors[0].critical_celsius.map(f), Some(95.0));
            assert_eq!(dimm_only.sensors[0].label, format!("{driver} · DIMM A1"));

            // The source remains memory even with a CPU-labelled channel,
            // or when the optional channel label is unavailable.
            fixture.write(&format!("{directory}/temp1_label"), "CPU socket 0 DIMM A1");
            assert_eq!(hottest(&fixture.snapshot()), None);
            fixture.remove(&format!("{directory}/temp1_label"));
            assert_eq!(hottest(&fixture.snapshot()), None);

            fixture.write("class/hwmon/hwmon1/name", "peci_cputemp.cpu0");
            fixture.write("class/hwmon/hwmon1/temp1_label", "Die");
            fixture.write("class/hwmon/hwmon1/temp1_input", "40000");
            let mixed = fixture.snapshot();
            assert_eq!(mixed.sensors.len(), 2);
            assert_eq!(hottest(&mixed), Some(40.0));
            assert_eq!(
                mixed.sensors.iter().filter(|sensor| sensor.is_cpu).count(),
                1
            );
        }
    }
    for source in ["peci_dimmtemp", "peci_dimmtemp.cpu0"] {
        let mut fixture = Fixture::new();
        fixture.write("class/thermal/thermal_zone0/type", source);
        fixture.write("class/thermal/thermal_zone0/temp", "80000");
        let snapshot = fixture.snapshot();
        assert_eq!(snapshot.sensors.len(), 1);
        assert_eq!(f(snapshot.sensors[0].celsius), 80.0);
        assert!(!snapshot.sensors[0].is_cpu);
        assert_eq!(hottest(&snapshot), None);
    }
}

#[test]
fn cpu_vrm_readings_remain_visible_without_supplying_the_cpu_headline() {
    for directory in ["class/hwmon/hwmon0", "class/hwmon/hwmon0/device"] {
        let mut fixture = Fixture::new();
        fixture.write(&format!("{directory}/name"), "asus_wmi_sensors");
        fixture.write(&format!("{directory}/temp1_label"), "CPU VRM Temperature");
        fixture.write(&format!("{directory}/temp1_input"), "85000");
        fixture.write(&format!("{directory}/temp1_crit"), "100000");

        let vrm_only = fixture.quiet_snapshot();
        assert_eq!(vrm_only.sensors.len(), 1);
        let vrm = &vrm_only.sensors[0];
        assert_eq!(vrm.label, "asus_wmi_sensors · CPU VRM Temperature");
        assert_eq!(f(vrm.celsius), 85.0);
        assert_eq!(vrm.critical_celsius.map(f), Some(100.0));
        assert_eq!(hottest(&vrm_only), None, "{directory}");
        assert!(!vrm.is_cpu);

        fixture.write(&format!("{directory}/temp2_label"), "CPU Temperature");
        fixture.write(&format!("{directory}/temp2_input"), "40000");
        let mixed = fixture.quiet_snapshot();
        assert_eq!(mixed.sensors.len(), 2);
        assert_eq!(hottest(&mixed), Some(40.0), "{directory}");
        assert_eq!(
            mixed.sensors.iter().filter(|sensor| sensor.is_cpu).count(),
            1
        );
    }
}

#[test]
fn cpu_vrm_source_names_do_not_supply_the_cpu_headline() {
    for source in ["cpu_vrm", "CPU-VRM"] {
        let mut fixture = Fixture::new();
        fixture.write("class/hwmon/hwmon0/name", source);
        fixture.write("class/hwmon/hwmon0/temp1_label", "CPU");
        fixture.write("class/hwmon/hwmon0/temp1_input", "85000");
        fixture.write("class/thermal/thermal_zone0/type", source);
        fixture.write("class/thermal/thermal_zone0/temp", "86000");
        let snapshot = fixture.snapshot();
        assert_eq!(snapshot.sensors.len(), 2);
        assert_eq!(hottest(&snapshot), None, "{source}");
        assert!(snapshot.sensors.iter().all(|sensor| !sensor.is_cpu));
    }
}

#[test]
fn combined_pch_temperatures_remain_visible_without_supplying_the_cpu_headline() {
    for directory in ["class/hwmon/hwmon0", "class/hwmon/hwmon0/device"] {
        for label in ["PCH_CHIP_CPU_MAX_TEMP", "pch_chip_cpu_max_temp"] {
            let mut fixture = Fixture::new();
            fixture.write(&format!("{directory}/name"), "nct6796");
            fixture.write(&format!("{directory}/temp1_label"), label);
            fixture.write(&format!("{directory}/temp1_input"), "80000");
            fixture.write(&format!("{directory}/temp1_crit"), "95000");

            let composite_only = fixture.quiet_snapshot();
            assert_eq!(composite_only.sensors.len(), 1);
            let composite = &composite_only.sensors[0];
            assert_eq!(composite.label, format!("nct6796 · {label}"));
            assert_eq!(f(composite.celsius), 80.0);
            assert_eq!(composite.critical_celsius.map(f), Some(95.0));
            assert_eq!(hottest(&composite_only), None, "{directory}: {label}");
            assert!(!composite.is_cpu);

            fixture.write(&format!("{directory}/temp2_label"), "PCH_CPU_TEMP");
            fixture.write(&format!("{directory}/temp2_input"), "45000");
            fixture.write(&format!("{directory}/temp3_label"), "PCH_MCH_TEMP");
            fixture.write(&format!("{directory}/temp3_input"), "80000");
            fixture.write("class/hwmon/hwmon1/name", "coretemp");
            fixture.write("class/hwmon/hwmon1/temp1_label", "Package id 0");
            fixture.write("class/hwmon/hwmon1/temp1_input", "40000");
            let mixed = fixture.quiet_snapshot();
            assert_eq!(mixed.sensors.len(), 4);
            assert_eq!(hottest(&mixed), Some(45.0), "{directory}: {label}");
            assert_eq!(
                mixed.sensors.iter().filter(|sensor| sensor.is_cpu).count(),
                2
            );

            // Losing the PCH CPU reading must leave the package reading
            // authoritative even while the hotter composite remains.
            fixture.remove(&format!("{directory}/temp2_input"));
            assert_eq!(hottest(&fixture.quiet_snapshot()), Some(40.0));
        }
    }
}

#[test]
fn combined_pch_thermal_zones_do_not_supply_the_cpu_headline() {
    for source in ["PCH_CHIP_CPU_MAX_TEMP", "pch_chip_cpu_max_temp"] {
        let mut fixture = Fixture::new();
        fixture.write("class/thermal/thermal_zone0/type", source);
        fixture.write("class/thermal/thermal_zone0/temp", "80000");
        fixture.write("class/thermal/thermal_zone0/trip_point_0_type", "critical");
        fixture.write("class/thermal/thermal_zone0/trip_point_0_temp", "95000");
        let snapshot = fixture.quiet_snapshot();
        assert_eq!(snapshot.sensors.len(), 1);
        assert_eq!(snapshot.sensors[0].label, source);
        assert_eq!(f(snapshot.sensors[0].celsius), 80.0);
        assert_eq!(snapshot.sensors[0].critical_celsius.map(f), Some(95.0));
        assert!(!snapshot.sensors[0].is_cpu, "{source}");
        assert_eq!(hottest(&snapshot), None, "{source}");
    }
}

#[test]
fn cpu_sensor_driver_and_channel_recognition_is_retained() {
    for (driver, label) in [
        ("coretemp", "Package id 0"),
        ("k10temp", "Tdie"),
        ("k8temp", "temp1"),
        ("zenpower", "Tctl"),
        ("peci_cputemp", "Die"),
        ("peci_cputemp.cpu12", "Die"),
        ("board_sensor", "CPU"),
        ("board_sensor", "CPU_MAX_TEMP"),
    ] {
        let mut fixture = Fixture::new();
        fixture.write("class/hwmon/hwmon0/name", driver);
        fixture.write("class/hwmon/hwmon0/temp1_label", label);
        fixture.write("class/hwmon/hwmon0/temp1_input", "42000");
        assert_eq!(hottest(&fixture.snapshot()), Some(42.0), "{driver}: {label}");
    }
    for zone_type in ["cpu-thermal", "x86_pkg_temp", "soc_thermal"] {
        let mut fixture = Fixture::new();
        fixture.write("class/thermal/thermal_zone0/type", zone_type);
        fixture.write("class/thermal/thermal_zone0/temp", "43000");
        assert_eq!(hottest(&fixture.snapshot()), Some(43.0), "{zone_type}");
    }
}

#[test]
fn it87_disabled_sensor_types_are_omitted_and_reenable_recovers() {
    for directory in ["class/hwmon/hwmon0", "class/hwmon/hwmon0/device"] {
        for driver in ["it87", "it8728", "it8689", "it8603", "it87952"] {
            let mut fixture = Fixture::new();
            fixture.write(&format!("{directory}/name"), driver);
            // A disabled input can remain readable and look plausible.
            fixture.write(&format!("{directory}/temp1_input"), "127000");

            // The type attribute is optional; its absence is not disablement.
            assert_eq!(fixture.sample().len(), 1, "{driver} at {directory}");
            let type_path = format!("{directory}/temp1_type");
            fixture.create_dir(&type_path);
            assert_eq!(fixture.sample().len(), 1, "unreadable type at {directory}");
            fixture.remove(&type_path);
            fixture.write(&format!("{directory}/temp1_type"), "0");
            assert!(fixture.sample().is_empty(), "{driver} at {directory}");
            // Zero does not have a generic disablement meaning in hwmon.
            fixture.write(&format!("{directory}/name"), "other");
            assert_eq!(fixture.sample().len(), 1);
            fixture.write(&format!("{directory}/name"), driver);
            for enabled_type in ["3", "4"] {
                fixture.write(&format!("{directory}/temp1_type"), enabled_type);
                let sensors = fixture.sample();
                assert_eq!(sensors.len(), 1, "{driver} at {directory}");
                assert_eq!(f(sensors[0].celsius), 127.0);
            }
            fixture.remove(&format!("{directory}/temp1_type"));
            assert_eq!(fixture.sample().len(), 1);
        }
    }
}

#[test]
fn disabled_sensor_types_reject_canonical_aliases_even_when_read_later() {
    let mut fixture = Fixture::new();
    fixture.write("class/hwmon/hwmon0/name", "it8728");
    fixture.write("class/hwmon/hwmon0/temp1_input", "127000");
    fixture.write("class/hwmon/hwmon0/device/temp1_type", "0");
    let input = "class/hwmon/hwmon0/temp1_input";
    fixture.link(input, "class/hwmon/hwmon0/device/temp1_input");
    fixture.write("class/thermal/thermal_zone0/type", "it8728");
    fixture.link(input, "class/thermal/thermal_zone0/temp");

    // The modern view accepts the input before its legacy alias rejects it.
    assert!(fixture.sample().is_empty());
    fixture.write("class/hwmon/hwmon0/device/temp1_type", "4");
    assert_eq!(fixture.sample().len(), 1);
    // Rejection found in the first view must also survive later aliases.
    fixture.write("class/hwmon/hwmon0/temp1_type", "0");
    assert!(fixture.sample().is_empty());
    fixture.remove("class/hwmon/hwmon0/temp1_type");
    assert_eq!(fixture.sample().len(), 1);
}

#[test]
fn sensors_come_in_the_order_of_cpus_labels_and_sources() {
    let mut fixture = Fixture::new();
    fixture.write("class/hwmon/hwmon0/name", "zebra");
    fixture.write("class/hwmon/hwmon0/temp2_input", "1000");
    fixture.write("class/hwmon/hwmon0/temp10_input", "2000");
    fixture.write("class/hwmon/hwmon1/name", "coretemp");
    fixture.write("class/hwmon/hwmon1/temp1_input", "3000");
    fixture.write("class/hwmon/hwmon2/name", "zebra");
    fixture.write("class/hwmon/hwmon2/temp2_input", "4000");
    let found: Vec<(String, f64)> = fixture
        .sample()
        .into_iter()
        .map(|sensor| (sensor.label, f(sensor.celsius)))
        .collect();
    let expected = [
        ("coretemp · temp1", 3.0),
        ("zebra · temp10", 2.0),
        ("zebra · temp2", 1.0),
        ("zebra · temp2", 4.0),
    ];
    assert_eq!(found, expected.map(|(label, celsius)| (label.to_owned(), celsius)));
}

#[test]
fn the_lowest_critical_trip_point_limits_a_zone() {
    let mut fixture = Fixture::new();
    let zone = "class/thermal/thermal_zone0";
    fixture.write(&format!("{zone}/temp"), "20000");
    for (point, kind, temperature) in [
        (0, "critical", "99000"),
        (1, "passive", "10000"),
        (2, "critical", "97000"),
        (3, "critical", "0"),
    ] {
        fixture.write(&format!("{zone}/trip_point_{point}_type"), kind);
        fixture.write(&format!("{zone}/trip_point_{point}_temp"), temperature);
    }
    let sensors = fixture.sample();
    assert_eq!(sensors[0].label, "thermal_zone0");
    assert_eq!(sensors[0].critical_celsius.map(f), Some(97.0));
}

#[test]
fn names_of_channels_and_trip_points_are_told_from_others() {
    assert_eq!(temperature_channel("temp12_input").as_deref(), Some("temp12"));
    for other in ["temp_input", "temp1_label", "temp1a_input", "in1_input", "temp1_input2"] {
        assert_eq!(temperature_channel(other), None, "{other}");
    }
    assert_eq!(trip_point("trip_point_3_type").as_deref(), Some("trip_point_3"));
    assert_eq!(trip_point("trip_point_3_temp"), None);
    assert_eq!(trip_point("type"), None);
}

#[test]
fn temperatures_outside_what_hardware_reports_are_missing() {
    let read = |text: &str| read_temperature(&Some(text.to_owned())).map(f);
    assert_eq!(read(" 45500\n"), Some(45.5));
    assert_eq!(read("-100000"), Some(-100.0));
    assert_eq!(read("250000"), Some(250.0));
    assert_eq!(read("-100001"), None);
    assert_eq!(read("250001"), None);
    assert_eq!(read("warm"), None);
    assert_eq!(read_temperature(&None).map(f), None);
}

#[test]
fn a_cpu_is_known_by_its_driver_or_its_channel() {
    assert!(cpu_sensor_name("coretemp", ""));
    assert!(cpu_sensor_name("board", "CPU Temperature"));
    assert!(!cpu_sensor_name("board", "CPU VRM"));
    assert!(!cpu_sensor_name("nvme", "Composite"));
}
