{
  "$schema": "https://schema.tauri.app/config/2",
  "productName": "GitFerry",
  "version": "0.1.0",
  "identifier": "com.gitferry.app",
  "build": {
    "frontendDist": "../dist"
  },
  "app": {
    "windows": [
      {
        "label": "main",
        "title": "GitFerry",
        "width": 960,
        "height": 640
      }
    ],
    "macOSPrivateApi": false
  },
  "bundle": {
    "active": true,
    "targets": ["dmg"]
  }
}
